//! What the canonical order of simplices is: by size, and then as lists of vertices.

use super::super::simplex::ascending;
use super::layout;
use vstd::prelude::*;

verus! {

/// List `a` comes before list `b` of the same length: at the first place where they differ
/// it has the lower item.
pub open spec fn list_before(a: Seq<u32>, b: Seq<u32>) -> bool {
    exists|k: int|
        0 <= k < a.len() && k < b.len() && #[trigger] a[k] < b[k] && forall|i: int|
            0 <= i < k ==> a[i] == b[i]
}

/// An ascending list holds each of its items once.
proof fn lemma_size(a: Seq<u32>)
    requires
        ascending(a),
    ensures
        a.to_set().len() == a.len(),
{
    assert(a.no_duplicates());
    a.unique_seq_to_set();
}

/// Below a number on which they agree, two ascending lists are the same.
proof fn lemma_agree(a: Seq<u32>, b: Seq<u32>, d: u32, k: int, n: int)
    requires
        ascending(a),
        ascending(b),
        a.len() == b.len(),
        0 <= n <= k < a.len(),
        a[k] == d,
        forall|e: u32| e < d ==> (#[trigger] a.to_set().contains(e) <==> b.to_set().contains(e)),
    ensures
        forall|i: int| 0 <= i < n ==> a[i] == b[i],
    decreases n,
{
    if n > 0 {
        lemma_agree(a, b, d, k, n - 1);
        let i: int = n - 1;
        assert(a[i] < d);
        assert(a.to_set().contains(a[i]));
        assert(b.contains(a[i]));
        let j: int = choose|j: int| 0 <= j < b.len() && b[j] == a[i];
        if j < i {
            assert(a[j] == b[j]);
        }
        assert(b[i] <= a[i]);
        assert(b.to_set().contains(b[i]));
        assert(a.to_set().contains(b[i]));
        assert(a.contains(b[i]));
        let l: int = choose|l: int| 0 <= l < a.len() && a[l] == b[i];
        if l < i {
            assert(a[l] == b[l]);
        }
    }
}

/// The canonical order: a set comes before another exactly where it has fewer members, or as
/// many and, listed in ascending order, comes first at the first place where the lists
/// differ.
pub proof fn law_before_is_by_size_then_lexicographic(a: Seq<u32>, b: Seq<u32>)
    requires
        ascending(a),
        ascending(b),
    ensures
        layout::before(a.to_set(), b.to_set()) <==> a.len() < b.len() || (a.len() == b.len()
            && list_before(a, b)),
{
    let s: Set<u32> = a.to_set();
    let t: Set<u32> = b.to_set();
    lemma_size(a);
    lemma_size(b);
    if a.len() == b.len() && list_before(a, b) {
        let k: int = choose|k: int|
            0 <= k < a.len() && k < b.len() && #[trigger] a[k] < b[k] && forall|i: int|
                0 <= i < k ==> a[i] == b[i];
        let d: u32 = a[k];
        assert(s.contains(d));
        assert(!t.contains(d)) by {
            if b.contains(d) {
                let j: int = choose|j: int| 0 <= j < b.len() && b[j] == d;
                if j < k {
                    assert(a[j] == b[j]);
                }
            }
        }
        assert forall|e: u32| e < d implies (#[trigger] s.contains(e) <==> t.contains(e)) by {
            if a.contains(e) {
                let j: int = choose|j: int| 0 <= j < a.len() && a[j] == e;
                assert(j < k);
                assert(b[j] == e);
            }
            if b.contains(e) {
                let j: int = choose|j: int| 0 <= j < b.len() && b[j] == e;
                assert(j < k);
                assert(a[j] == e);
            }
        }
        assert(layout::splits(s, t, d));
    }
    if a.len() == b.len() && layout::before(s, t) {
        let d: u32 = choose|d: u32| layout::splits(s, t, d);
        assert(a.contains(d));
        let k: int = choose|k: int| 0 <= k < a.len() && a[k] == d;
        lemma_agree(a, b, d, k, k);
        assert(b[k] > d) by {
            assert(t.contains(b[k]));
            if b[k] < d {
                assert(s.contains(b[k]));
                assert(a.contains(b[k]));
                let m: int = choose|m: int| 0 <= m < a.len() && a[m] == b[k];
                assert(m < k);
                assert(a[m] == b[m]);
            }
        }
        assert(a[k] < b[k]);
    }
}

} // verus!
