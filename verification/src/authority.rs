//! The permission authority's observable state: the live, in-process sets of
//! allowed and forbidden path patterns.
//!
//! The enforcement machinery around these sets is the host's business; this
//! type models exactly what the reconciler configures and observes — two
//! path sets mutated by `allow_file` and `forbid_file` and read back as
//! snapshots. The host owns one value of it, injected into the reconciler,
//! and converts to and from its own path representation at the edge.

use vstd::prelude::*;

use crate::paths::{contains_path, copy_paths, views};

verus! {

/// The two live path sets. Once running they are the single source of
/// truth; the persisted record is a snapshot of them, not the other way
/// round.
pub struct Authority {
    allowed: Vec<Vec<u8>>,
    forbidden: Vec<Vec<u8>>,
}

impl Authority {
    /// The set of allowed path patterns.
    pub closed spec fn allowed_set(&self) -> Set<Seq<u8>> {
        views(self.allowed@).to_set()
    }

    /// The set of forbidden path patterns.
    pub closed spec fn forbidden_set(&self) -> Set<Seq<u8>> {
        views(self.forbidden@).to_set()
    }

    /// The carriers hold no duplicates.
    pub closed spec fn wf(&self) -> bool {
        views(self.allowed@).no_duplicates() && views(self.forbidden@).no_duplicates()
    }

    /// An authority with both sets empty.
    pub fn new() -> (r: Self)
        ensures
            r.wf(),
            r.allowed_set() == Set::<Seq<u8>>::empty(),
            r.forbidden_set() == Set::<Seq<u8>>::empty(),
    {
        let r = Authority { allowed: Vec::new(), forbidden: Vec::new() };
        proof {
            assert(r.allowed_set() =~= Set::<Seq<u8>>::empty());
            assert(r.forbidden_set() =~= Set::<Seq<u8>>::empty());
        }
        r
    }

    /// Adds `path` to the allowed set. The forbidden set is untouched, and
    /// adding a path already present changes nothing.
    pub fn allow_file(&mut self, path: Vec<u8>)
        requires
            old(self).wf(),
        ensures
            final(self).wf(),
            final(self).allowed_set() == old(self).allowed_set().insert(path@),
            final(self).forbidden_set() == old(self).forbidden_set(),
    {
        let ghost pre = views(self.allowed@);
        if !contains_path(&self.allowed, &path) {
            self.allowed.push(path);
            proof {
                assert(views(self.allowed@) =~~= pre.push(path@));
                pre.lemma_push_to_set_commute(path@);
                assert(views(self.allowed@).no_duplicates()) by {
                    assert(forall|x: int|
                        0 <= x < pre.len() ==> views(self.allowed@)[x] == pre[x]);
                    assert(!pre.contains(path@));
                }
            }
        } else {
            proof {
                assert(pre.to_set().contains(path@));
                assert(pre.to_set().insert(path@) =~= pre.to_set());
            }
        }
    }

    /// Adds `path` to the forbidden set. The allowed set is untouched, and
    /// adding a path already present changes nothing.
    pub fn forbid_file(&mut self, path: Vec<u8>)
        requires
            old(self).wf(),
        ensures
            final(self).wf(),
            final(self).forbidden_set() == old(self).forbidden_set().insert(path@),
            final(self).allowed_set() == old(self).allowed_set(),
    {
        let ghost pre = views(self.forbidden@);
        if !contains_path(&self.forbidden, &path) {
            self.forbidden.push(path);
            proof {
                assert(views(self.forbidden@) =~~= pre.push(path@));
                pre.lemma_push_to_set_commute(path@);
                assert(views(self.forbidden@).no_duplicates()) by {
                    assert(forall|x: int|
                        0 <= x < pre.len() ==> views(self.forbidden@)[x] == pre[x]);
                    assert(!pre.contains(path@));
                }
            }
        } else {
            proof {
                assert(pre.to_set().contains(path@));
                assert(pre.to_set().insert(path@) =~= pre.to_set());
            }
        }
    }

    /// A snapshot of the allowed set, one path per entry.
    pub fn allowed(&self) -> (r: Vec<Vec<u8>>)
        requires
            self.wf(),
        ensures
            views(r@).to_set() == self.allowed_set(),
            views(r@).no_duplicates(),
    {
        copy_paths(&self.allowed)
    }

    /// A snapshot of the forbidden set, one path per entry.
    pub fn forbidden(&self) -> (r: Vec<Vec<u8>>)
        requires
            self.wf(),
        ensures
            views(r@).to_set() == self.forbidden_set(),
            views(r@).no_duplicates(),
    {
        copy_paths(&self.forbidden)
    }

    /// Whether `path` stands in the allowed set.
    pub fn is_allowed(&self, path: &Vec<u8>) -> (r: bool)
        ensures
            r == self.allowed_set().contains(path@),
    {
        contains_path(&self.allowed, path)
    }

    /// Whether `path` stands in the forbidden set.
    pub fn is_forbidden(&self, path: &Vec<u8>) -> (r: bool)
        ensures
            r == self.forbidden_set().contains(path@),
    {
        contains_path(&self.forbidden, path)
    }
}

} // verus!
