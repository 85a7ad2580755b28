use vstd::prelude::*;
use crate::types::{Timestamp, VersionedRow, VersionedRowV};

verus! {

/// The visibility oracle, as a mathematical predicate: a version is visible
/// at `read_ts` when it began at or before `read_ts` and either is still
/// open or ends strictly after `read_ts`.
pub open spec fn spec_visible_at(v: VersionedRowV, read_ts: Timestamp) -> bool {
    v.begin_ts <= read_ts && match v.end_ts {
        None => true,
        Some(e) => read_ts < e,
    }
}

/// Decides whether `v` is visible at logical read timestamp `read_ts`.
/// Pure and total; used identically by point lookups and full scans.
pub fn visible_at(v: &VersionedRow, read_ts: Timestamp) -> (r: bool)
    ensures
        r == spec_visible_at(v@, read_ts),
{
    v.begin_ts <= read_ts && match v.end_ts {
        None => true,
        Some(e) => read_ts < e,
    }
}

} // verus!
