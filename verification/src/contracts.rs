//! Governance records carried alongside ingestion: data contracts,
//! policies and artifacts as the request surface hands them over.

use vstd::prelude::*;

verus! {

/// A producer's promise about the data it ships.
pub struct DataContract {
    pub producer: String,
    pub schema_hash: String,
    pub pii_fields: Vec<String>,
}

/// A named policy with an effect label and a priority.
pub struct Policy {
    pub name: String,
    pub effect: String,
    pub priority: i32,
}

/// One ingested artifact: an id and its text.
pub struct Artifact {
    pub id: String,
    pub text: String,
}

} // verus!
