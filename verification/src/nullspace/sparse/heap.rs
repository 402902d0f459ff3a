//! A binary min-heap of pairs, ordered lexicographically.

use vstd::prelude::*;

verus! {

/// Lexicographic order on pairs.
pub open spec fn pair_le(a: (usize, usize), b: (usize, usize)) -> bool {
    a.0 < b.0 || (a.0 == b.0 && a.1 <= b.1)
}

/// Every pair but the first is at least its parent, except perhaps at `hole`.
pub open spec fn heap_ordered_but(s: Seq<(usize, usize)>, hole: int) -> bool {
    forall|i: int| 0 < i < s.len() && i != hole ==> pair_le(s[(i - 1) / 2], #[trigger] s[i])
}

/// The children of `hole` are at least its parent.
pub open spec fn skips(s: Seq<(usize, usize)>, hole: int) -> bool {
    forall|i: int|
        0 < i < s.len() && (i - 1) / 2 == hole && 0 < hole ==> pair_le(
            s[(hole - 1) / 2],
            #[trigger] s[i],
        )
}

/// `b` holds what `a` holds, in another order.
pub open spec fn same_items(a: Seq<(usize, usize)>, b: Seq<(usize, usize)>) -> bool {
    a.to_multiset() == b.to_multiset()
}

fn pair_le_exec(a: (usize, usize), b: (usize, usize)) -> (r: bool)
    ensures
        r == pair_le(a, b),
{
    a.0 < b.0 || (a.0 == b.0 && a.1 <= b.1)
}

/// A heap: its least pair comes out first.
pub struct MinHeap {
    items: Vec<(usize, usize)>,
}

impl MinHeap {
    /// The heap's pairs, in its own order.
    pub closed spec fn items(&self) -> Seq<(usize, usize)> {
        self.items@
    }

    /// Every pair but the first is at least its parent.
    pub closed spec fn wf(&self) -> bool {
        heap_ordered_but(self.items@, -1)
    }

    /// The pair is in the heap.
    pub open spec fn holds(&self, x: (usize, usize)) -> bool {
        self.items().contains(x)
    }

    pub fn new() -> (h: MinHeap)
        ensures
            h.wf(),
            h.items() == Seq::<(usize, usize)>::empty(),
    {
        MinHeap { items: Vec::new() }
    }

    pub fn push(&mut self, x: (usize, usize))
        requires
            old(self).wf(),
        ensures
            final(self).wf(),
            final(self).items().to_multiset() == old(self).items().to_multiset().insert(x),
            forall|y: (usize, usize)|
                #[trigger] final(self).holds(y) <==> y == x || old(self).holds(y),
    {
        self.items.push(x);
        proof {
            old(self).items@.to_multiset_ensures();
        }
        let ghost all = self.items@;
        let mut i: usize = self.items.len() - 1;
        while i > 0
            invariant
                i < self.items@.len(),
                self.items@.len() == all.len(),
                same_items(all, self.items@),
                heap_ordered_but(self.items@, i as int),
                skips(self.items@, i as int),
            ensures
                same_items(all, self.items@),
                heap_ordered_but(self.items@, -1),
            decreases i,
        {
            let parent: usize = (i - 1) / 2;
            let a: (usize, usize) = self.items[parent];
            let b: (usize, usize) = self.items[i];
            if pair_le_exec(a, b) {
                break;
            }
            let ghost before = self.items@;
            self.items.set(parent, b);
            self.items.set(i, a);
            proof {
                lemma_swap_items(before, self.items@, parent as int, i as int);
            }
            i = parent;
        }
        proof {
            self.items@.to_multiset_ensures();
            old(self).items@.to_multiset_ensures();
            assert forall|y: (usize, usize)|
                #[trigger] self.holds(y) <==> y == x || old(self).holds(y) by {
                assert(self.items@.contains(y) <==> self.items@.to_multiset().count(y) > 0);
                assert(old(self).items@.contains(y) <==> old(self).items@.to_multiset().count(y)
                    > 0);
            }
        }
    }

    pub fn pop(&mut self) -> (res: Option<(usize, usize)>)
        requires
            old(self).wf(),
        ensures
            final(self).wf(),
            res is None <==> old(self).items().len() == 0,
            res is None ==> final(self).items() == old(self).items(),
            res matches Some(x) ==> {
                &&& old(self).holds(x)
                &&& forall|y: (usize, usize)| #[trigger] old(self).holds(y) ==> pair_le(x, y)
                &&& final(self).items().len() == old(self).items().len() - 1
                &&& final(self).items().to_multiset() == old(self).items().to_multiset().remove(x)
                &&& forall|y: (usize, usize)|
                    y != x ==> (#[trigger] final(self).holds(y) <==> old(self).holds(y))
            },
    {
        let ghost all = self.items@;
        let n: usize = self.items.len();
        if n == 0 {
            return None;
        }
        let top: (usize, usize) = self.items[0];
        let last: (usize, usize) = self.items[n - 1];
        proof {
            assert(all.contains(all[0]));
            assert forall|y: (usize, usize)| #[trigger] all.contains(y) implies pair_le(top, y) by {
                let k: int = choose|k: int| 0 <= k < all.len() && all[k] == y;
                lemma_top_least(all, k);
            }
        }
        self.items.set(0, last);
        let _ = self.items.pop();
        let ghost rest = self.items@;
        proof {
            lemma_pop_items(all, rest);
        }
        let m: usize = n - 1;
        let mut i: usize = 0;
        while i < m
            invariant
                self.items@.len() == m,
                i <= m,
                same_items(rest, self.items@),
                forall|k: int|
                    0 < k < m && (k - 1) / 2 != i ==> pair_le(
                        self.items@[(k - 1) / 2],
                        #[trigger] self.items@[k],
                    ),
                skips(self.items@, i as int),
            ensures
                same_items(rest, self.items@),
                self.items@.len() == m,
                heap_ordered_but(self.items@, -1),
            decreases m - i,
        {
            if i >= m / 2 {
                assert forall|k: int| 0 < k < m implies pair_le(
                    self.items@[(k - 1) / 2],
                    #[trigger] self.items@[k],
                ) by {
                    assert((k - 1) / 2 != i);
                }
                break;
            }
            let left: usize = 2 * i + 1;
            let right: usize = 2 * i + 2;
            let child: usize = if right < m && pair_le_exec(self.items[right], self.items[left]) {
                right
            } else {
                left
            };
            let a: (usize, usize) = self.items[i];
            let b: (usize, usize) = self.items[child];
            if pair_le_exec(a, b) {
                assert forall|k: int| 0 < k < m implies pair_le(
                    self.items@[(k - 1) / 2],
                    #[trigger] self.items@[k],
                ) by {
                    if (k - 1) / 2 == i {
                        assert(k == left || k == right);
                    }
                }
                break;
            }
            let ghost before = self.items@;
            self.items.set(i, b);
            self.items.set(child, a);
            proof {
                lemma_swap_items(before, self.items@, i as int, child as int);
                let now = self.items@;
                assert forall|k: int| 0 < k < m && (k - 1) / 2 != child implies pair_le(
                    now[(k - 1) / 2],
                    #[trigger] now[k],
                ) by {
                    if (k - 1) / 2 == i {
                        assert(k == left || k == right);
                        if k != child {
                            assert(now[k] == before[k]);
                        }
                    } else if k == i {
                        assert(pair_le(before[(i - 1) / 2], before[child as int]));
                        assert(now[(k - 1) / 2] == before[(k - 1) / 2]);
                    } else {
                        assert(k != child);
                        assert(now[k] == before[k]);
                        assert(now[(k - 1) / 2] == before[(k - 1) / 2]);
                    }
                }
                assert forall|k: int|
                    0 < k < m && (k - 1) / 2 == child && 0 < child implies pair_le(
                    now[(child - 1) / 2],
                    #[trigger] now[k],
                ) by {
                    assert((child - 1) / 2 == i as int);
                    assert(now[k] == before[k]);
                    assert(pair_le(before[(k - 1) / 2], before[k]));
                }
            }
            i = child;
        }
        proof {
            self.items@.to_multiset_ensures();
            all.to_multiset_ensures();
            assert forall|y: (usize, usize)| y != top implies (#[trigger] self.holds(y)
                <==> all.contains(y)) by {
                assert(self.items@.contains(y) <==> self.items@.to_multiset().count(y) > 0);
                assert(all.contains(y) <==> all.to_multiset().count(y) > 0);
            }
        }
        Some(top)
    }
}

/// Exchanging two pairs keeps the items.
proof fn lemma_swap_items(a: Seq<(usize, usize)>, b: Seq<(usize, usize)>, i: int, j: int)
    requires
        0 <= i < a.len(),
        0 <= j < a.len(),
        b == a.update(i, a[j]).update(j, a[i]),
    ensures
        same_items(a, b),
{
    vstd::seq_lib::to_multiset_update(a, i, a[j]);
    vstd::seq_lib::to_multiset_update(a.update(i, a[j]), j, a[i]);
    a.to_multiset_ensures();
    a.update(i, a[j]).to_multiset_ensures();
    if i != j {
        assert(a.contains(a[i]));
        assert(a.contains(a[j]));
    }
    assert(b.to_multiset() =~= a.to_multiset());
}

/// Moving the last pair to the front and dropping it at the end removes the first.
proof fn lemma_pop_items(a: Seq<(usize, usize)>, b: Seq<(usize, usize)>)
    requires
        a.len() > 0,
        b == a.update(0, a.last()).drop_last(),
    ensures
        b.to_multiset() == a.to_multiset().remove(a[0]),
{
    let c: Seq<(usize, usize)> = a.update(0, a.last());
    vstd::seq_lib::to_multiset_update(a, 0, a.last());
    a.to_multiset_ensures();
    b.to_multiset_ensures();
    assert(c =~= b.push(c.last()));
    assert(c.last() == a.last());
    assert(c.to_multiset() =~= b.to_multiset().insert(a.last()));
    assert(a.contains(a[0]));
    assert forall|v: (usize, usize)|
        b.to_multiset().count(v) == #[trigger] a.to_multiset().remove(a[0]).count(v) by {
        assert(c.to_multiset().count(v) == b.to_multiset().insert(a.last()).count(v));
        assert(c.to_multiset().count(v) == a.to_multiset().insert(a.last()).remove(a[0]).count(v));
    }
    assert(b.to_multiset() =~= a.to_multiset().remove(a[0]));
}

/// The first pair of a heap is the least.
proof fn lemma_top_least(s: Seq<(usize, usize)>, k: int)
    requires
        heap_ordered_but(s, -1),
        0 <= k < s.len(),
    ensures
        pair_le(s[0], s[k]),
    decreases k,
{
    if k > 0 {
        lemma_top_least(s, (k - 1) / 2);
        assert(pair_le(s[(k - 1) / 2], s[k]));
    }
}

} // verus!
