//! The caller's assumed identity: who is asking, which org scope they
//! see, and which responsibility roles they may exercise.

use vstd::prelude::*;
use crate::raci::RaciRole;

verus! {

/// An assumed identity: a person, their assumed roles, their
/// organizational scope, and the responsibility roles granted to them.
pub struct Persona {
    pub person_id: String,
    pub assumed_roles: Vec<String>,
    pub org_scope: roaring::RoaringBitmap,
    pub raci_allowed: Vec<RaciRole>,
}

impl Persona {
    /// Whether this persona may exercise responsibility role `r`.
    pub fn allows_role(&self, r: RaciRole) -> (b: bool)
        ensures
            b == self.raci_allowed@.contains(r),
    {
        let n = self.raci_allowed.len();
        let mut i: usize = 0;
        while i < n
            invariant
                i <= n,
                n == self.raci_allowed@.len(),
                forall|j: int| 0 <= j < i ==> self.raci_allowed@[j] != r,
            decreases n - i,
        {
            if self.raci_allowed[i] == r {
                return true;
            }
            i = i + 1;
        }
        false
    }
}

} // verus!
