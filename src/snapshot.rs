//! The report of one enumeration: when it began and what was advertised.
use vstd::prelude::*;
use crate::record::GlobalRecord;

verus! {

/// The result of one enumeration pass.
#[derive(Clone, Debug, PartialEq, Eq)]
pub struct Snapshot {
    /// Milliseconds since the Unix epoch, taken when the pass began.
    pub generation_timestamp: u64,
    pub globals: Vec<GlobalRecord>,
}

/// The report made of a timestamp and the normalized records.
pub fn assemble(generation_timestamp: u64, globals: Vec<GlobalRecord>) -> (r: Snapshot)
    ensures
        r.generation_timestamp == generation_timestamp,
        r.globals@ == globals@,
{
    Snapshot { generation_timestamp, globals }
}

} // verus!
