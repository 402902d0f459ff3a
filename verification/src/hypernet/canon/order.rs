//! The canonical order of simplices: by size, then by ascending members.

use super::super::simplex;
use super::super::simplex::{members, VSet};
use super::layout;
use vstd::prelude::*;

verus! {

/// The sets of members of some lists.
pub open spec fn sets(lists: Seq<Vec<u32>>) -> Seq<Set<u32>> {
    Seq::new(lists.len(), |i: int| lists[i]@.to_set())
}

/// Each list ascends.
pub open spec fn all_ascend(lists: Seq<Vec<u32>>) -> bool {
    forall|i: int| 0 <= i < lists.len() ==> simplex::ascending(#[trigger] lists[i]@)
}

/// Two sets of the same size that differ are told apart by a lowest member.
proof fn lemma_lowest_difference(a: Set<u32>, b: Set<u32>, x: u32) -> (d: u32)
    requires
        a.contains(x) != b.contains(x),
    ensures
        layout::splits(a, b, d) || layout::splits(b, a, d),
    decreases x,
{
    if exists|e: u32| e < x && #[trigger] a.contains(e) != b.contains(e) {
        let e: u32 = choose|e: u32| e < x && #[trigger] a.contains(e) != b.contains(e);
        lemma_lowest_difference(a, b, e)
    } else {
        x
    }
}

/// Two different sets come one before the other.
proof fn lemma_total(a: Set<u32>, b: Set<u32>)
    ensures
        a == b || layout::before(a, b) || layout::before(b, a),
{
    if a.len() == b.len() && a != b {
        assert(!(a =~= b));
        let x: u32 = choose|x: u32| #[trigger] a.contains(x) != b.contains(x);
        let d: u32 = lemma_lowest_difference(a, b, x);
    }
}

/// The order goes one way.
proof fn lemma_asymmetric(a: Set<u32>, b: Set<u32>)
    requires
        layout::before(a, b),
    ensures
        !layout::before(b, a),
        a != b,
{
    if layout::before(b, a) {
        let d: u32 = choose|d: u32| layout::splits(a, b, d);
        let e: u32 = choose|e: u32| layout::splits(b, a, e);
        if d < e {
            assert(b.contains(d) <==> a.contains(d));
        } else if e < d {
            assert(a.contains(e) <==> b.contains(e));
        }
    }
}

/// The order passes on.
proof fn lemma_transitive(a: Set<u32>, b: Set<u32>, c: Set<u32>)
    requires
        layout::before(a, b),
        layout::before(b, c),
    ensures
        layout::before(a, c),
{
    if a.len() == c.len() {
        let d: u32 = choose|d: u32| layout::splits(a, b, d);
        let e: u32 = choose|e: u32| layout::splits(b, c, e);
        let m: u32 = if d < e {
            d
        } else {
            e
        };
        assert(b.contains(m) <==> (m == e || c.contains(m)));
        assert(a.contains(m)) by {
            if m < d {
                assert(a.contains(m) <==> b.contains(m));
            }
        }
        assert(!c.contains(m)) by {
            if m < e {
                assert(b.contains(m) <==> c.contains(m));
            }
        }
        assert forall|x: u32| x < m implies (#[trigger] a.contains(x) <==> c.contains(x)) by {
            assert(a.contains(x) <==> b.contains(x));
            assert(b.contains(x) <==> c.contains(x));
        }
        assert(layout::splits(a, c, m));
    }
}

/// Not coming before passes on.
proof fn lemma_not_before(a: Set<u32>, b: Set<u32>, c: Set<u32>)
    requires
        !layout::before(b, a),
        !layout::before(c, b),
    ensures
        !layout::before(c, a),
{
    if layout::before(c, a) {
        lemma_total(a, b);
        if layout::before(a, b) {
            lemma_transitive(c, a, b);
        }
    }
}

/// Inserting keeps the order and adds the one set.
pub proof fn lemma_inserted(ys: Seq<Set<u32>>, x: Set<u32>)
    requires
        layout::in_order(ys),
    ensures
        layout::in_order(layout::inserted(ys, x)),
        layout::inserted(ys, x).len() == ys.len() + 1,
        layout::inserted(ys, x).to_multiset() == ys.to_multiset().insert(x),
        forall|i: int|
            0 <= i <= ys.len() ==> (#[trigger] layout::inserted(ys, x)[i] == x || ys.contains(
                layout::inserted(ys, x)[i],
            )),
    decreases ys.len(),
{
    broadcast use vstd::seq_lib::group_to_multiset_ensures;

    let r: Seq<Set<u32>> = layout::inserted(ys, x);
    if ys.len() == 0 || !layout::before(x, ys.last()) {
        assert forall|i: int, j: int| 0 <= i < j < r.len() implies !layout::before(
            #[trigger] r[j],
            #[trigger] r[i],
        ) by {
            if j == ys.len() {
                if i < ys.len() - 1 {
                    assert(!layout::before(ys[ys.len() - 1], ys[i]));
                    lemma_not_before(ys[i], ys.last(), x);
                }
            } else {
                assert(!layout::before(ys[j], ys[i]));
            }
        }
        assert forall|i: int| 0 <= i <= ys.len() implies (#[trigger] r[i] == x || ys.contains(
            r[i],
        )) by {
            if i < ys.len() {
                assert(ys[i] == r[i]);
            }
        }
    } else {
        let front: Seq<Set<u32>> = ys.drop_last();
        let last: Set<u32> = ys.last();
        assert forall|i: int, j: int| 0 <= i < j < front.len() implies !layout::before(
            #[trigger] front[j],
            #[trigger] front[i],
        ) by {
            assert(!layout::before(ys[j], ys[i]));
        }
        lemma_inserted(front, x);
        let inner: Seq<Set<u32>> = layout::inserted(front, x);
        lemma_asymmetric(x, last);
        assert forall|i: int, j: int| 0 <= i < j < r.len() implies !layout::before(
            #[trigger] r[j],
            #[trigger] r[i],
        ) by {
            if j == inner.len() {
                assert(r[i] == inner[i]);
                if inner[i] != x {
                    let k: int = choose|k: int| 0 <= k < front.len() && front[k] == inner[i];
                    assert(!layout::before(ys[ys.len() - 1], ys[k]));
                }
            } else {
                assert(r[i] == inner[i] && r[j] == inner[j]);
            }
        }
        assert forall|i: int| 0 <= i <= ys.len() implies (#[trigger] r[i] == x || ys.contains(
            r[i],
        )) by {
            if i < inner.len() {
                assert(r[i] == inner[i]);
                if inner[i] != x {
                    let k: int = choose|k: int| 0 <= k < front.len() && front[k] == inner[i];
                    assert(ys[k] == inner[i]);
                }
            } else {
                assert(ys[ys.len() - 1] == r[i]);
            }
        }
        assert(ys =~= front.push(last));
        assert(r.to_multiset() =~= ys.to_multiset().insert(x));
    }
}

/// Arranging sorts: the result is in order and holds each set as often as before.
pub proof fn law_arranged_sorts(xs: Seq<Set<u32>>)
    ensures
        layout::in_order(layout::arranged(xs)),
        layout::arranged(xs).len() == xs.len(),
        layout::arranged(xs).to_multiset() == xs.to_multiset(),
    decreases xs.len(),
{
    broadcast use vstd::seq_lib::group_to_multiset_ensures;

    if xs.len() > 0 {
        law_arranged_sorts(xs.drop_last());
        lemma_inserted(layout::arranged(xs.drop_last()), xs.last());
        assert(xs =~= xs.drop_last().push(xs.last()));
    } else {
        assert(layout::arranged(xs) =~= xs);
    }
}

/// Each set of a list does not come before the one in front of it.
pub open spec fn steps(xs: Seq<Set<u32>>) -> bool {
    forall|j: int| 1 <= j < xs.len() ==> !layout::before(#[trigger] xs[j], xs[j - 1])
}

/// A list that is in order stays as it is.
pub proof fn lemma_arranged_fixed(xs: Seq<Set<u32>>)
    requires
        steps(xs),
    ensures
        layout::arranged(xs) == xs,
    decreases xs.len(),
{
    if xs.len() > 0 {
        let front: Seq<Set<u32>> = xs.drop_last();
        assert forall|j: int| 1 <= j < front.len() implies !layout::before(
            #[trigger] front[j],
            front[j - 1],
        ) by {
            assert(!layout::before(xs[j], xs[j - 1]));
        }
        lemma_arranged_fixed(front);
        if front.len() > 0 {
            assert(!layout::before(xs[xs.len() - 1], xs[xs.len() - 2]));
        }
        assert(layout::arranged(xs) =~= xs);
    } else {
        assert(layout::arranged(xs) =~= xs);
    }
}

/// Arranging twice is arranging once: a canonical list is its own canonical form.
pub proof fn law_arranged_once(xs: Seq<Set<u32>>)
    ensures
        layout::arranged(layout::arranged(xs)) == layout::arranged(xs),
{
    law_arranged_sorts(xs);
    lemma_arranged_fixed(layout::arranged(xs));
}

/// Two lists in order that hold the same sets, each as often, are one list.
proof fn lemma_ordered_unique(xs: Seq<Set<u32>>, ys: Seq<Set<u32>>)
    requires
        layout::in_order(xs),
        layout::in_order(ys),
        xs.to_multiset() == ys.to_multiset(),
    ensures
        xs == ys,
    decreases xs.len(),
{
    broadcast use vstd::seq_lib::group_to_multiset_ensures;

    assert(xs.len() == xs.to_multiset().len() && ys.len() == ys.to_multiset().len());
    if xs.len() == 0 {
        assert(xs =~= ys);
    } else {
        let a: Set<u32> = xs.last();
        let b: Set<u32> = ys.last();
        assert(xs.contains(a) && ys.contains(b));
        assert(ys.to_multiset().count(a) > 0 && xs.to_multiset().count(b) > 0);
        assert(ys.contains(a) && xs.contains(b));
        let i: int = choose|i: int| 0 <= i < ys.len() && ys[i] == a;
        let j: int = choose|j: int| 0 <= j < xs.len() && xs[j] == b;
        assert(a == b) by {
            if i < ys.len() - 1 {
                assert(!layout::before(ys[ys.len() - 1], ys[i]));
            }
            if j < xs.len() - 1 {
                assert(!layout::before(xs[xs.len() - 1], xs[j]));
            }
            lemma_total(a, b);
        }
        let front: Seq<Set<u32>> = xs.drop_last();
        let back: Seq<Set<u32>> = ys.drop_last();
        assert forall|p: int, q: int| 0 <= p < q < front.len() implies !layout::before(
            #[trigger] front[q],
            #[trigger] front[p],
        ) by {
            assert(!layout::before(xs[q], xs[p]));
        }
        assert forall|p: int, q: int| 0 <= p < q < back.len() implies !layout::before(
            #[trigger] back[q],
            #[trigger] back[p],
        ) by {
            assert(!layout::before(ys[q], ys[p]));
        }
        assert(xs =~= front.push(a));
        assert(ys =~= back.push(a));
        assert(front.to_multiset() =~= xs.to_multiset().remove(a));
        assert(back.to_multiset() =~= ys.to_multiset().remove(a));
        lemma_ordered_unique(front, back);
    }
}

/// The order in which sets are listed does not matter: lists that hold the same sets, each
/// as often, are arranged alike.
pub proof fn law_arranged_from_any_order(xs: Seq<Set<u32>>, ys: Seq<Set<u32>>)
    requires
        xs.to_multiset() == ys.to_multiset(),
    ensures
        layout::arranged(xs) == layout::arranged(ys),
{
    law_arranged_sorts(xs);
    law_arranged_sorts(ys);
    lemma_ordered_unique(layout::arranged(xs), layout::arranged(ys));
}

/// Where a set is inserted.
proof fn lemma_inserted_at(ys: Seq<Set<u32>>, x: Set<u32>, k: int)
    requires
        0 <= k <= ys.len(),
        k > 0 ==> !layout::before(x, ys[k - 1]),
        forall|j: int| k <= j < ys.len() ==> layout::before(x, #[trigger] ys[j]),
    ensures
        layout::inserted(ys, x) == ys.insert(k, x),
    decreases ys.len(),
{
    if k == ys.len() {
        assert(layout::inserted(ys, x) =~= ys.insert(k, x));
    } else {
        let front: Seq<Set<u32>> = ys.drop_last();
        assert(layout::before(x, ys[ys.len() - 1]));
        assert forall|j: int| k <= j < front.len() implies layout::before(x, #[trigger] front[j]) by {
            assert(layout::before(x, ys[j]));
        }
        lemma_inserted_at(front, x, k);
        assert(layout::inserted(ys, x) =~= ys.insert(k, x));
    }
}

/// Whether the set of one list comes before that of another.
pub fn lists_before(a: &Vec<u32>, b: &Vec<u32>) -> (r: bool)
    requires
        simplex::ascending(a@),
        simplex::ascending(b@),
    ensures
        r == layout::before(a@.to_set(), b@.to_set()),
{
    let ghost s: Set<u32> = a@.to_set();
    let ghost t: Set<u32> = b@.to_set();
    proof {
        assert(a@.no_duplicates());
        assert(b@.no_duplicates());
        a@.unique_seq_to_set();
        b@.unique_seq_to_set();
    }
    if a.len() != b.len() {
        return a.len() < b.len();
    }
    let mut i: usize = 0;
    while i < a.len() && a[i] == b[i]
        invariant
            i <= a@.len(),
            a@.len() == b@.len(),
            forall|j: int| 0 <= j < i ==> a@[j] == b@[j],
        decreases a@.len() - i,
    {
        i = i + 1;
    }
    if i == a.len() {
        proof {
            assert(a@ =~= b@);
            if layout::before(s, t) {
                lemma_asymmetric(s, t);
            }
        }
        return false;
    }
    proof {
        if a@[i as int] < b@[i as int] {
            lemma_parted(a@, b@, i as int);
        } else {
            lemma_parted(b@, a@, i as int);
            assert(layout::before(t, s));
            lemma_asymmetric(t, s);
        }
    }
    a[i] < b[i]
}

/// Where two ascending lists part, the lower item splits their sets.
proof fn lemma_parted(a: Seq<u32>, b: Seq<u32>, i: int)
    requires
        simplex::ascending(a),
        simplex::ascending(b),
        0 <= i < a.len(),
        i < b.len(),
        forall|j: int| 0 <= j < i ==> a[j] == b[j],
        a[i] < b[i],
    ensures
        layout::splits(a.to_set(), b.to_set(), a[i]),
{
    let d: u32 = a[i];
    assert(a.contains(d));
    assert(!b.contains(d)) by {
        if b.contains(d) {
            let k: int = choose|k: int| 0 <= k < b.len() && b[k] == d;
            if k < i {
                assert(a[k] < a[i]);
            } else if k > i {
                assert(b[i] < b[k]);
            }
        }
    }
    assert forall|e: u32| e < d implies (#[trigger] a.to_set().contains(e) <==> b.to_set().contains(
        e,
    )) by {
        if a.contains(e) {
            let k: int = choose|k: int| 0 <= k < a.len() && a[k] == e;
            if k > i {
                assert(a[i] < a[k]);
            }
            assert(b[k] == e);
        }
        if b.contains(e) {
            let k: int = choose|k: int| 0 <= k < b.len() && b[k] == e;
            if k >= i {
                assert(b[i] <= b[k]);
            }
            assert(a[k] == e);
        }
    }
}

/// The members of each set, the sets in canonical order.
pub fn arrange(xs: &Vec<VSet>) -> (r: Vec<Vec<u32>>)
    ensures
        all_ascend(r@),
        r@.len() == xs@.len(),
        sets(r@) == layout::arranged(super::super::types::views(xs@)),
{
    let ghost all: Seq<Set<u32>> = super::super::types::views(xs@);
    let mut r: Vec<Vec<u32>> = Vec::new();
    let mut i: usize = 0;
    assert(all.take(0).len() == 0);
    assert(sets(r@) =~= layout::arranged(all.take(0)));
    while i < xs.len()
        invariant
            all == super::super::types::views(xs@),
            i <= xs@.len(),
            r@.len() == i,
            all_ascend(r@),
            sets(r@) == layout::arranged(all.take(i as int)),
        decreases xs@.len() - i,
    {
        let list: Vec<u32> = members(&xs[i]);
        let mut k: usize = r.len();
        while k > 0 && lists_before(&list, &r[k - 1])
            invariant
                k <= r@.len(),
                all_ascend(r@),
                simplex::ascending(list@),
                forall|j: int|
                    k <= j < r@.len() ==> layout::before(list@.to_set(), #[trigger] sets(r@)[j]),
            decreases k,
        {
            k = k - 1;
            assert(sets(r@)[k as int] == r@[k as int]@.to_set());
        }
        proof {
            if k > 0 {
                assert(sets(r@)[k - 1] == r@[k - 1]@.to_set());
            }
            lemma_inserted_at(sets(r@), list@.to_set(), k as int);
            let next: Seq<Set<u32>> = all.take(i + 1);
            assert(next.drop_last() =~= all.take(i as int));
            assert(next.last() == list@.to_set());
        }
        let ghost had: Seq<Vec<u32>> = r@;
        r.insert(k, list);
        i = i + 1;
        proof {
            assert(sets(r@) =~= sets(had).insert(k as int, list@.to_set()));
            assert forall|j: int| 0 <= j < r@.len() implies simplex::ascending(
                #[trigger] r@[j]@,
            ) by {
                if j < k {
                    assert(r@[j] == had[j]);
                } else if j > k {
                    assert(r@[j] == had[j - 1]);
                }
            }
        }
    }
    assert(all.take(i as int) =~= all);
    r
}

} // verus!
