//! The persisted unit: a record of two path sets, allowed and forbidden.

use vstd::prelude::*;

use crate::codec;
use crate::paths::{dedup_paths, views};

verus! {

/// A snapshot of the scope: the allowed and the forbidden path patterns.
///
/// Both lists are deduplicated; their order carries no meaning. A path may
/// stand in both lists at once — resolving such a conflict is the permission
/// authority's business, not this record's.
pub struct ScopeRecord {
    pub allowed_paths: Vec<Vec<u8>>,
    pub forbidden_paths: Vec<Vec<u8>>,
}

impl ScopeRecord {
    /// The set of allowed path patterns.
    pub open spec fn allowed_set(&self) -> Set<Seq<u8>> {
        views(self.allowed_paths@).to_set()
    }

    /// The set of forbidden path patterns.
    pub open spec fn forbidden_set(&self) -> Set<Seq<u8>> {
        views(self.forbidden_paths@).to_set()
    }

    /// Both lists are free of duplicates.
    pub open spec fn wf(&self) -> bool {
        views(self.allowed_paths@).no_duplicates() && views(self.forbidden_paths@).no_duplicates()
    }

    /// The record with both sets empty.
    pub fn empty() -> (r: Self)
        ensures
            r.wf(),
            r.allowed_set() == Set::<Seq<u8>>::empty(),
            r.forbidden_set() == Set::<Seq<u8>>::empty(),
    {
        let r = ScopeRecord { allowed_paths: Vec::new(), forbidden_paths: Vec::new() };
        proof {
            assert(r.allowed_set() =~= Set::<Seq<u8>>::empty());
            assert(r.forbidden_set() =~= Set::<Seq<u8>>::empty());
        }
        r
    }

    /// Builds a record from two path lists, collapsing duplicates: the lists
    /// are read as sets.
    pub fn from_lists(allowed: &Vec<Vec<u8>>, forbidden: &Vec<Vec<u8>>) -> (r: Self)
        ensures
            r.wf(),
            r.allowed_set() == views(allowed@).to_set(),
            r.forbidden_set() == views(forbidden@).to_set(),
    {
        ScopeRecord { allowed_paths: dedup_paths(allowed), forbidden_paths: dedup_paths(forbidden) }
    }

    /// Serializes the record into the on-disk format.
    pub fn to_json(&self) -> (out: Vec<u8>)
        ensures
            out@ == codec::enc_record(views(self.allowed_paths@), views(self.forbidden_paths@)),
    {
        codec::encode_record(&self.allowed_paths, &self.forbidden_paths)
    }
}

} // verus!
