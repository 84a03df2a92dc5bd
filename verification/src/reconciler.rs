//! The scope reconciler: wires the startup load to the authority, and every
//! later mutation of the authority to a persist.
//!
//! Two phases, no intermediate. In `Bootstrapping` the reconciler loads the
//! saved record and applies every entry to the authority, then moves to
//! `Listening` unconditionally. In `Listening` it answers each mutation
//! event with the bytes to persist: the authority's complete current state,
//! re-serialized. The host performs the file reads and writes and delivers
//! the events, one at a time; a failed write is the host's to log and skip —
//! the next event persists the then-current state again.

use vstd::prelude::*;

use crate::authority::Authority;
use crate::codec::parse_record;
use crate::paths::{copy_bytes, views};
use crate::record::ScopeRecord;
use crate::store::{load_record, save_record, LoadStatus};

verus! {

/// The reconciler's phase.
#[derive(Clone, Copy, Debug, PartialEq, Eq, Structural)]
pub enum ReconcilerPhase {
    /// Before the saved record has been applied.
    Bootstrapping,
    /// Applied; every mutation event now drives a persist. Terminal.
    Listening,
}

/// The state machine synchronizing the scope store with the authority.
pub struct Reconciler {
    pub phase: ReconcilerPhase,
}

/// Applies a record to the authority: every allowed path is allowed, every
/// forbidden path is forbidden. Afterwards each authority set is the union
/// of what it held and the record's set — so applying the same record again
/// changes nothing (see [`lemma_apply_record_idempotent`]).
pub fn apply_record(auth: &mut Authority, rec: &ScopeRecord)
    requires
        old(auth).wf(),
    ensures
        final(auth).wf(),
        final(auth).allowed_set() == old(auth).allowed_set().union(rec.allowed_set()),
        final(auth).forbidden_set() == old(auth).forbidden_set().union(rec.forbidden_set()),
{
    let ghost a0 = auth.allowed_set();
    let ghost f0 = auth.forbidden_set();
    let ghost av = views(rec.allowed_paths@);
    let ghost fv = views(rec.forbidden_paths@);
    let mut i: usize = 0;
    proof {
        assert(a0.union(av.take(0).to_set()) =~= a0);
    }
    while i < rec.allowed_paths.len()
        invariant
            i <= rec.allowed_paths.len(),
            auth.wf(),
            av == views(rec.allowed_paths@),
            auth.allowed_set() == a0.union(av.take(i as int).to_set()),
            auth.forbidden_set() == f0,
        decreases rec.allowed_paths.len() - i,
    {
        let p = copy_bytes(&rec.allowed_paths[i]);
        auth.allow_file(p);
        proof {
            assert(av.take(i + 1 as int) =~~= av.take(i as int).push(av[i as int]));
            av.take(i as int).lemma_push_to_set_commute(av[i as int]);
            assert(a0.union(av.take(i as int).to_set()).insert(av[i as int]) =~= a0.union(
                av.take(i + 1 as int).to_set(),
            ));
        }
        i += 1;
    }
    proof {
        assert(av.take(rec.allowed_paths@.len() as int) =~~= av);
    }
    let mut j: usize = 0;
    proof {
        assert(f0.union(fv.take(0).to_set()) =~= f0);
    }
    while j < rec.forbidden_paths.len()
        invariant
            j <= rec.forbidden_paths.len(),
            auth.wf(),
            fv == views(rec.forbidden_paths@),
            auth.forbidden_set() == f0.union(fv.take(j as int).to_set()),
            auth.allowed_set() == a0.union(av.to_set()),
            av == views(rec.allowed_paths@),
        decreases rec.forbidden_paths.len() - j,
    {
        let p = copy_bytes(&rec.forbidden_paths[j]);
        auth.forbid_file(p);
        proof {
            assert(fv.take(j + 1 as int) =~~= fv.take(j as int).push(fv[j as int]));
            fv.take(j as int).lemma_push_to_set_commute(fv[j as int]);
            assert(f0.union(fv.take(j as int).to_set()).insert(fv[j as int]) =~= f0.union(
                fv.take(j + 1 as int).to_set(),
            ));
        }
        j += 1;
    }
    proof {
        assert(fv.take(rec.forbidden_paths@.len() as int) =~~= fv);
    }
}

/// Applying the same record twice is the same as applying it once: a second
/// application leaves the authority's sets unchanged, since each set is
/// already the union of its old value and the record's set.
pub proof fn lemma_apply_record_idempotent(
    a: Set<Seq<u8>>,
    f: Set<Seq<u8>>,
    rec_a: Set<Seq<u8>>,
    rec_f: Set<Seq<u8>>,
)
    ensures
        a.union(rec_a).union(rec_a) == a.union(rec_a),
        f.union(rec_f).union(rec_f) == f.union(rec_f),
{
    assert(a.union(rec_a).union(rec_a) =~= a.union(rec_a));
    assert(f.union(rec_f).union(rec_f) =~= f.union(rec_f));
}

impl Reconciler {
    /// A reconciler about to bootstrap.
    pub fn new() -> (r: Self)
        ensures
            r.phase == ReconcilerPhase::Bootstrapping,
    {
        Reconciler { phase: ReconcilerPhase::Bootstrapping }
    }

    /// Startup: turns the scope file's raw content into a record — empty on
    /// a missing or corrupt file — applies it to the authority, and moves to
    /// `Listening`. Returns how the load went, for the host to report.
    pub fn bootstrap(&mut self, auth: &mut Authority, content: Option<&Vec<u8>>) -> (st:
        LoadStatus)
        requires
            old(self).phase == ReconcilerPhase::Bootstrapping,
            old(auth).wf(),
        ensures
            final(self).phase == ReconcilerPhase::Listening,
            final(auth).wf(),
            content is None ==> st == LoadStatus::Missing && final(auth).allowed_set() == old(
                auth,
            ).allowed_set() && final(auth).forbidden_set() == old(auth).forbidden_set(),
            content matches Some(c) ==> match parse_record(c@) {
                Some(p) => st == LoadStatus::Loaded && final(auth).allowed_set() == old(
                    auth,
                ).allowed_set().union(p.0.to_set()) && final(auth).forbidden_set() == old(
                    auth,
                ).forbidden_set().union(p.1.to_set()),
                None => st == LoadStatus::Corrupt && final(auth).allowed_set() == old(
                    auth,
                ).allowed_set() && final(auth).forbidden_set() == old(auth).forbidden_set(),
            },
    {
        let (rec, st) = load_record(content);
        apply_record(auth, &rec);
        proof {
            if rec.allowed_set() == Set::<Seq<u8>>::empty() {
                assert(old(auth).allowed_set().union(rec.allowed_set()) =~= old(
                    auth,
                ).allowed_set());
            }
            if rec.forbidden_set() == Set::<Seq<u8>>::empty() {
                assert(old(auth).forbidden_set().union(rec.forbidden_set()) =~= old(
                    auth,
                ).forbidden_set());
            }
        }
        self.phase = ReconcilerPhase::Listening;
        st
    }

    /// One mutation event while listening: reads the authority's complete
    /// current state and yields the bytes to persist over the scope file.
    /// Whatever the event was, the bytes parse back to exactly the
    /// authority's two sets.
    pub fn observe_mutation(&self, auth: &Authority) -> (out: Vec<u8>)
        requires
            self.phase == ReconcilerPhase::Listening,
            auth.wf(),
        ensures
            parse_record(out@) matches Some(p) && p.0.to_set() == auth.allowed_set()
                && p.1.to_set() == auth.forbidden_set(),
    {
        let a = auth.allowed();
        let f = auth.forbidden();
        save_record(&a, &f)
    }

    /// The one command surface exposed to the host application: request that
    /// a path be added to the allowed scope. A pass-through to the
    /// authority; persistence follows from the mutation event it fires.
    pub fn request_allow(&self, auth: &mut Authority, path: Vec<u8>)
        requires
            old(auth).wf(),
        ensures
            final(auth).wf(),
            final(auth).allowed_set() == old(auth).allowed_set().insert(path@),
            final(auth).forbidden_set() == old(auth).forbidden_set(),
    {
        auth.allow_file(path);
    }
}

} // verus!
