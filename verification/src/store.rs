//! The scope store: the durable form of one [`ScopeRecord`].
//!
//! The store itself never touches the disk; it turns raw file content into a
//! record and a record into raw file content. The caller reads and writes
//! the file at `<app-data-dir>/asset-scope.json` and hands the bytes over.
//! A missing file and a corrupt file both degrade to the empty record —
//! corruption is non-fatal and self-heals by discarding history — and the
//! outcome says which of the three cases held, so the caller can report it.

use vstd::prelude::*;

use crate::codec;
use crate::codec::parse_record;
use crate::paths::views;
use crate::record::ScopeRecord;

verus! {

/// How a load went. Every case still yields a usable record.
#[derive(Clone, Copy, Debug, PartialEq, Eq, Structural)]
pub enum LoadStatus {
    /// The file was there and parsed; its record was returned.
    Loaded,
    /// There was no file; the empty record was returned.
    Missing,
    /// The file did not parse; the empty record was returned.
    Corrupt,
}

/// Turns the raw content of the scope file — `None` where the file does not
/// exist — into the record to start from.
///
/// A missing file yields the empty record and `Missing`; content that does
/// not parse yields the empty record and `Corrupt`; neither is an error.
/// Parsed content yields its two path sets, duplicates collapsed.
pub fn load_record(content: Option<&Vec<u8>>) -> (r: (ScopeRecord, LoadStatus))
    ensures
        r.0.wf(),
        content is None ==> r.1 == LoadStatus::Missing && r.0.allowed_set() == Set::<
            Seq<u8>,
        >::empty() && r.0.forbidden_set() == Set::<Seq<u8>>::empty(),
        content matches Some(c) ==> match parse_record(c@) {
            Some(p) => r.1 == LoadStatus::Loaded && r.0.allowed_set() == p.0.to_set()
                && r.0.forbidden_set() == p.1.to_set(),
            None => r.1 == LoadStatus::Corrupt && r.0.allowed_set() == Set::<Seq<u8>>::empty()
                && r.0.forbidden_set() == Set::<Seq<u8>>::empty(),
        },
{
    match content {
        None => (ScopeRecord::empty(), LoadStatus::Missing),
        Some(c) => {
            match codec::decode_record(c) {
                Some((a, f)) => (ScopeRecord::from_lists(&a, &f), LoadStatus::Loaded),
                None => (ScopeRecord::empty(), LoadStatus::Corrupt),
            }
        },
    }
}

/// Serializes two path lists into the bytes to write over the scope file.
///
/// The file is overwritten whole on every persist; there is no versioning
/// and no history.
pub fn save_record(allowed: &Vec<Vec<u8>>, forbidden: &Vec<Vec<u8>>) -> (out: Vec<u8>)
    ensures
        out@ == codec::enc_record(views(allowed@), views(forbidden@)),
        parse_record(out@) == Some((views(allowed@), views(forbidden@))),
{
    proof {
        codec::lemma_parse_enc_record(views(allowed@), views(forbidden@));
    }
    codec::encode_record(allowed, forbidden)
}

} // verus!
