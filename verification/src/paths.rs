//! Path byte-string helpers: equality, membership, copying, deduplication.
//!
//! A path pattern is an opaque byte string; a scope is a set of them. Lists
//! of paths are kept free of duplicates, so a list is a canonical carrier of
//! the set of its views.

use vstd::prelude::*;

verus! {

/// The views of a list of byte strings, as a sequence of sequences.
pub open spec fn views(l: Seq<Vec<u8>>) -> Seq<Seq<u8>> {
    l.map_values(|v: Vec<u8>| v@)
}

/// Byte-string equality, stated over the views.
pub fn eq_bytes(a: &Vec<u8>, b: &Vec<u8>) -> (r: bool)
    ensures
        r == (a@ == b@),
{
    if a.len() != b.len() {
        assert(a@ != b@);
        return false;
    }
    let mut i: usize = 0;
    while i < a.len()
        invariant
            i <= a.len(),
            a.len() == b.len(),
            forall|k: int| 0 <= k < i ==> a@[k] == b@[k],
        decreases a.len() - i,
    {
        if a[i] != b[i] {
            return false;
        }
        i += 1;
    }
    proof {
        assert(a@ =~= b@);
    }
    true
}

/// Whether `p` stands in the list `l`.
pub fn contains_path(l: &Vec<Vec<u8>>, p: &Vec<u8>) -> (r: bool)
    ensures
        r == views(l@).contains(p@),
{
    let mut i: usize = 0;
    while i < l.len()
        invariant
            i <= l.len(),
            forall|k: int| 0 <= k < i ==> views(l@)[k] != p@,
        decreases l.len() - i,
    {
        if eq_bytes(&l[i], p) {
            proof {
                assert(views(l@)[i as int] == p@);
            }
            return true;
        }
        i += 1;
    }
    proof {
        assert(!views(l@).contains(p@)) by {
            if views(l@).contains(p@) {
                let k = choose|k: int|
                    0 <= k < views(l@).len() && views(l@)[k] == p@;
                assert(views(l@)[k] != p@);
            }
        }
    }
    false
}

/// A fresh copy of one byte string.
pub fn copy_bytes(p: &Vec<u8>) -> (r: Vec<u8>)
    ensures
        r@ == p@,
{
    let mut r: Vec<u8> = Vec::new();
    let mut i: usize = 0;
    while i < p.len()
        invariant
            i <= p.len(),
            r@ == p@.take(i as int),
        decreases p.len() - i,
    {
        r.push(p[i]);
        proof {
            assert(p@.take(i + 1 as int) =~= p@.take(i as int).push(p@[i as int]));
        }
        i += 1;
    }
    proof {
        assert(p@.take(p@.len() as int) =~= p@);
    }
    r
}

/// A fresh copy of a whole path list.
pub fn copy_paths(l: &Vec<Vec<u8>>) -> (r: Vec<Vec<u8>>)
    ensures
        views(r@) == views(l@),
{
    let mut r: Vec<Vec<u8>> = Vec::new();
    let mut i: usize = 0;
    while i < l.len()
        invariant
            i <= l.len(),
            views(r@) == views(l@).take(i as int),
        decreases l.len() - i,
    {
        let ghost prev = r@;
        let c = copy_bytes(&l[i]);
        r.push(c);
        proof {
            assert(views(r@) =~~= views(prev).push(l@[i as int]@));
            assert(views(l@).take(i + 1 as int) =~~= views(l@).take(i as int).push(
                l@[i as int]@,
            ));
            assert(views(r@) =~~= views(l@).take(i + 1 as int));
        }
        i += 1;
    }
    proof {
        assert(views(l@).take(l@.len() as int) =~~= views(l@));
    }
    r
}

/// The same paths with every repetition dropped: the result carries the same
/// set and holds no duplicates.
pub fn dedup_paths(l: &Vec<Vec<u8>>) -> (r: Vec<Vec<u8>>)
    ensures
        views(r@).to_set() == views(l@).to_set(),
        views(r@).no_duplicates(),
{
    let mut r: Vec<Vec<u8>> = Vec::new();
    let mut i: usize = 0;
    proof {
        assert(views(r@).to_set() =~= views(l@).take(0).to_set());
    }
    while i < l.len()
        invariant
            i <= l.len(),
            views(r@).to_set() == views(l@).take(i as int).to_set(),
            views(r@).no_duplicates(),
        decreases l.len() - i,
    {
        let ghost pre = views(r@);
        let p = &l[i];
        if !contains_path(&r, p) {
            let c = copy_bytes(p);
            r.push(c);
            proof {
                assert(views(r@) =~~= pre.push(p@));
                assert(views(r@).no_duplicates()) by {
                    assert(forall|x: int, y: int|
                        0 <= x < y < views(r@).len() ==> views(r@)[x] != views(r@)[y]) by {
                        assert(forall|x: int|
                            0 <= x < pre.len() ==> views(r@)[x] == pre[x]);
                        assert(!pre.contains(p@));
                    }
                }
            }
        }
        proof {
            let lv = views(l@);
            assert(lv.take(i + 1 as int) =~~= lv.take(i as int).push(lv[i as int]));
            lv.take(i as int).lemma_push_to_set_commute(lv[i as int]);
            assert(lv[i as int] == p@);
            if pre.contains(p@) {
                assert(pre.to_set().contains(p@));
                assert(lv.take(i as int).to_set().insert(p@) =~= lv.take(i as int).to_set());
            } else {
                pre.lemma_push_to_set_commute(p@);
            }
        }
        i += 1;
    }
    proof {
        assert(views(l@).take(l@.len() as int) =~~= views(l@));
    }
    r
}

} // verus!
