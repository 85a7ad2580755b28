//! An embeddable multi-version row store with vector similarity search.
//!
//! Writes are timestamped by a logical counter, kept in per-key version
//! chains, and optionally embedded into a fixed-point vector space for
//! nearest-neighbour retrieval.

pub mod catalog;
pub mod config;
pub mod contracts;
pub mod mvcc;
pub mod org;
pub mod persona;
pub mod policy;
pub mod query;
pub mod raci;
pub mod semantic;
pub mod storage;
pub mod types;
pub mod vector;

pub use config::Config;
pub use types::{Timestamp, TxnId};
