//! Keyed leaf records and lemmas about sequences of them.

use vstd::prelude::*;
use vstd::seq_lib::*;
use crate::collision::Aabb;

verus! {

/// One stored leaf: a key and the bound it was inserted or updated with.
#[derive(Clone, Copy, Debug)]
pub struct LeafData {
    pub key: u64,
    pub aabb: Aabb,
}

/// Build a leaf record; contracts speak of leaves through this function.
pub open spec fn leaf_data(key: u64, aabb: Aabb) -> LeafData {
    LeafData { key, aabb }
}

/// Some leaf of `s` has key `k`.
pub open spec fn has_key(s: Seq<LeafData>, k: u64) -> bool {
    exists|i: int| 0 <= i < s.len() && s[i].key == k
}

/// No two leaves of `s` share a key.
pub open spec fn keys_unique(s: Seq<LeafData>) -> bool {
    forall|i: int, j: int| 0 <= i < j < s.len() ==> s[i].key != s[j].key
}

/// A key occurs in a concatenation exactly when it occurs in one part.
pub broadcast proof fn lemma_has_key_concat(a: Seq<LeafData>, b: Seq<LeafData>, k: u64)
    ensures
        #[trigger] has_key(a + b, k) <==> has_key(a, k) || has_key(b, k),
{
    if has_key(a, k) {
        let i = choose|i: int| 0 <= i < a.len() && a[i].key == k;
        assert((a + b)[i].key == k);
    }
    if has_key(b, k) {
        let i = choose|i: int| 0 <= i < b.len() && b[i].key == k;
        assert((a + b)[a.len() + i].key == k);
    }
    if has_key(a + b, k) {
        let i = choose|i: int| 0 <= i < (a + b).len() && (a + b)[i].key == k;
        if i < a.len() {
            assert(a[i].key == k);
        } else {
            assert(b[i - a.len()].key == k);
        }
    }
}

/// An element occurs in a concatenation exactly when it occurs in one part.
pub broadcast proof fn lemma_contains_concat(a: Seq<LeafData>, b: Seq<LeafData>, x: LeafData)
    ensures
        #[trigger] (a + b).contains(x) <==> a.contains(x) || b.contains(x),
{
    if a.contains(x) {
        let i = choose|i: int| 0 <= i < a.len() && a[i] == x;
        assert((a + b)[i] == x);
    }
    if b.contains(x) {
        let i = choose|i: int| 0 <= i < b.len() && b[i] == x;
        assert((a + b)[a.len() + i] == x);
    }
    if (a + b).contains(x) {
        let i = choose|i: int| 0 <= i < (a + b).len() && (a + b)[i] == x;
        if i < a.len() {
            assert(a[i] == x);
        } else {
            assert(b[i - a.len()] == x);
        }
    }
}

/// A key occurs exactly when some contained leaf carries it.
pub proof fn lemma_has_key_contains(s: Seq<LeafData>, k: u64)
    ensures
        has_key(s, k) <==> exists|x: LeafData| #[trigger] s.contains(x) && x.key == k,
{
    if has_key(s, k) {
        let i = choose|i: int| 0 <= i < s.len() && s[i].key == k;
        assert(s.contains(s[i]));
    }
    if exists|x: LeafData| #[trigger] s.contains(x) && x.key == k {
        let x = choose|x: LeafData| #[trigger] s.contains(x) && x.key == k;
        let i = choose|i: int| 0 <= i < s.len() && s[i] == x;
        assert(0 <= i < s.len() && s[i].key == k);
    }
}

/// Key uniqueness of a concatenation, decomposed.
pub broadcast proof fn lemma_keys_unique_concat(a: Seq<LeafData>, b: Seq<LeafData>)
    ensures
        #[trigger] keys_unique(a + b) <==> (keys_unique(a) && keys_unique(b) && forall|k: u64|
            !(#[trigger] has_key(a, k) && has_key(b, k))),
{
    if keys_unique(a + b) {
        assert forall|i: int, j: int| 0 <= i < j < a.len() implies a[i].key != a[j].key by {
            assert((a + b)[i] == a[i] && (a + b)[j] == a[j]);
        }
        assert forall|i: int, j: int| 0 <= i < j < b.len() implies b[i].key != b[j].key by {
            assert((a + b)[a.len() + i] == b[i] && (a + b)[a.len() + j] == b[j]);
        }
        assert forall|k: u64| !(#[trigger] has_key(a, k) && has_key(b, k)) by {
            if has_key(a, k) && has_key(b, k) {
                let i = choose|i: int| 0 <= i < a.len() && a[i].key == k;
                let j = choose|j: int| 0 <= j < b.len() && b[j].key == k;
                assert((a + b)[i].key == k && (a + b)[a.len() + j].key == k);
            }
        }
    }
    if keys_unique(a) && keys_unique(b) && forall|k: u64|
        !(#[trigger] has_key(a, k) && has_key(b, k)) {
        assert forall|i: int, j: int| 0 <= i < j < (a + b).len() implies (a + b)[i].key != (a
            + b)[j].key by {
            if j < a.len() {
                assert((a + b)[i] == a[i] && (a + b)[j] == a[j]);
            } else if i >= a.len() {
                assert((a + b)[i] == b[i - a.len()] && (a + b)[j] == b[j - a.len()]);
            } else {
                assert((a + b)[i] == a[i] && (a + b)[j] == b[j - a.len()]);
                if a[i].key == b[j - a.len()].key {
                    let k = a[i].key;
                    assert(has_key(a, k) && has_key(b, k));
                }
            }
        }
    }
}

/// A one-leaf sequence contains exactly that leaf and carries exactly its
/// key.
pub proof fn lemma_singleton_leaves(a: Seq<LeafData>)
    requires
        a.len() == 1,
    ensures
        forall|x: LeafData| #[trigger] a.contains(x) <==> x == a[0],
        forall|kk: u64| #[trigger] has_key(a, kk) <==> kk == a[0].key,
{
    assert(a.contains(a[0]));
    assert(has_key(a, a[0].key));
}


/// Filtering a sequence of leaves with pairwise distinct keys leaves the
/// keys pairwise distinct.
pub proof fn lemma_filter_keys_unique(s: Seq<LeafData>, pred: spec_fn(LeafData) -> bool)
    requires
        keys_unique(s),
    ensures
        keys_unique(s.filter(pred)),
    decreases s.len(),
{
    reveal(Seq::filter);
    if s.len() > 0 {
        let rest = s.drop_last();
        assert(keys_unique(rest)) by {
            assert forall|p: int, q: int| 0 <= p < q < rest.len() implies rest[p].key
                != rest[q].key by {
                assert(s[p] == rest[p] && s[q] == rest[q]);
            }
        }
        lemma_filter_keys_unique(rest, pred);
        let f = rest.filter(pred);
        if pred(s.last()) {
            assert(s.filter(pred) == f.push(s.last()));
            assert forall|p: int| 0 <= p < f.len() implies f[p].key != s.last().key by {
                assert(f.contains(f[p]));
                rest.lemma_filter_contains_rev(pred, f[p]);
                let q = choose|q: int| 0 <= q < rest.len() && rest[q] == f[p];
                assert(s[q] == rest[q]);
                assert(s[q].key != s[s.len() - 1].key);
            }
            assert forall|p: int, q: int|
                0 <= p < q < s.filter(pred).len() implies s.filter(pred)[p].key != s.filter(
                pred,
            )[q].key by {
                if q < f.len() {
                    assert(s.filter(pred)[p] == f[p] && s.filter(pred)[q] == f[q]);
                } else {
                    assert(s.filter(pred)[q] == s.last());
                    assert(s.filter(pred)[p] == f[p]);
                }
            }
        } else {
            assert(s.filter(pred) == f);
        }
    }
}

} // verus!
