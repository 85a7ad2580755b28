//! Policy effects: what an external policy engine may decide about a
//! query's results.

use vstd::prelude::*;

verus! {

/// The four policy effects a decision can carry.
#[derive(Clone, Copy, Debug, PartialEq, Eq, Structural)]
pub enum PolicyEffect {
    Allow,
    Deny,
    Mask,
    AggregateOnly,
}

/// A policy engine's verdict.
#[derive(Clone, Copy, Debug, PartialEq, Eq, Structural)]
pub struct PolicyDecision {
    pub effect: PolicyEffect,
}

/// The policy capability an external collaborator implements: it judges
/// an opaque request document.
pub trait PolicyEngine {
    fn evaluate(&self, input: serde_json::Value) -> (r: PolicyDecision);
}

/// The engine that allows everything.
pub struct AllowAll;

impl PolicyEngine for AllowAll {
    fn evaluate(&self, _input: serde_json::Value) -> (r: PolicyDecision)
        ensures
            r.effect == PolicyEffect::Allow,
    {
        PolicyDecision { effect: PolicyEffect::Allow }
    }
}

/// The JSON value type of serde_json, declared so policy inputs can pass
/// through opaquely.
#[verifier::external_type_specification]
#[verifier::external_body]
pub struct ExJsonValue(serde_json::Value);

} // verus!
