//! Sparse rows, and the merge that takes a multiple of one from another.

use crate::linalg;
use crate::mont::Mont;
use crate::nt;
use crate::nullspace::arith::submod;
use crate::nullspace::find_col;
use crate::nullspace::profile;
use vstd::prelude::*;

verus! {

/// The number of entries in all rows.
pub open spec fn total_len(cols: Seq<Vec<u32>>) -> nat
    decreases cols.len(),
{
    if cols.len() == 0 {
        0
    } else {
        total_len(cols.drop_last()) + cols.last()@.len()
    }
}

/// Replacing one row changes the number of entries by the difference in length.
pub proof fn lemma_total_update(cols: Seq<Vec<u32>>, r: int, v: Vec<u32>)
    requires
        0 <= r < cols.len(),
    ensures
        total_len(cols.update(r, v)) == total_len(cols) - cols[r]@.len() + v@.len(),
        cols[r]@.len() <= total_len(cols),
    decreases cols.len(),
{
    let upd: Seq<Vec<u32>> = cols.update(r, v);
    if r == cols.len() - 1 {
        assert(upd.drop_last() =~= cols.drop_last());
    } else {
        lemma_total_update(cols.drop_last(), r, v);
        assert(upd.drop_last() =~= cols.drop_last().update(r, v));
    }
}

/// The number of entries is at most the number of rows times the longest length.
pub proof fn lemma_total_bound(cols: Seq<Vec<u32>>, n: int)
    requires
        forall|i: int| 0 <= i < cols.len() ==> (#[trigger] cols[i])@.len() <= n,
    ensures
        total_len(cols) <= cols.len() * n,
    decreases cols.len(),
{
    if cols.len() > 0 {
        let rest: Seq<Vec<u32>> = cols.drop_last();
        assert forall|i: int| 0 <= i < rest.len() implies (#[trigger] rest[i])@.len() <= n by {
            assert(rest[i] == cols[i]);
        }
        lemma_total_bound(rest, n);
        assert(cols[cols.len() - 1]@.len() <= n);
        assert(cols.len() * n == rest.len() * n + n) by (nonlinear_arith)
            requires
                cols.len() == rest.len() + 1,
        ;
    } else {
        assert(0 * n == 0) by (nonlinear_arith);
    }
}

/// A row of distinct columns below `n` has at most `n` entries.
pub proof fn lemma_row_len(idx: Seq<u32>, n: int)
    requires
        profile::ascending(idx),
        forall|k: int| 0 <= k < idx.len() ==> #[trigger] idx[k] < n,
        n >= 0,
    ensures
        idx.len() <= n,
{
    profile::lemma_free_count(idx, n);
}

/// Rows in sparse form, with the original index of each.
pub struct RowStore {
    /// The columns of each row, ascending.
    pub cols: Vec<Vec<u32>>,
    /// The values of each row, parallel to its columns.
    pub vals: Vec<Vec<u64>>,
    /// The original row index of each row.
    pub orig: Vec<u32>,
    /// The number of entries in all rows.
    pub live_entries: usize,
}

impl RowStore {
    /// Row `r` is a sparse vector of nonzero residues.
    pub open spec fn row_wf(&self, r: int, n: int, p: int) -> bool {
        profile::is_sparse(self.cols@[r]@, self.vals@[r]@, n, p)
    }

    /// The rows are sparse vectors of length `n` modulo `p`, and the entries are
    /// counted.
    pub open spec fn wf(&self, n: int, p: int) -> bool {
        &&& self.vals@.len() == self.cols@.len()
        &&& self.orig@.len() == self.cols@.len()
        &&& forall|r: int| 0 <= r < self.cols@.len() ==> #[trigger] self.row_wf(r, n, p)
        &&& self.live_entries == total_len(self.cols@)
    }

    /// Row `r` as a dense vector.
    pub open spec fn row(&self, r: int, n: int) -> Seq<int> {
        profile::expand(self.cols@[r]@, self.vals@[r]@, n)
    }

    /// All rows as dense vectors.
    pub open spec fn rows(&self, n: int) -> Seq<Seq<int>> {
        Seq::new(self.cols@.len(), |r: int| self.row(r, n))
    }

    /// The number of entries in row `r`.
    pub fn nnz(&self, r: usize) -> (k: usize)
        requires
            r < self.cols@.len(),
        ensures
            k == self.cols@[r as int]@.len(),
    {
        self.cols[r].len()
    }

    /// The place of column `c` in row `r`.
    pub fn contains(&self, r: usize, c: u32, Ghost(n): Ghost<int>, Ghost(p): Ghost<int>) -> (res:
        Option<usize>)
        requires
            self.wf(n, p),
            r < self.cols@.len(),
            c < n,
        ensures
            res matches Some(k) ==> k < self.cols@[r as int]@.len() && self.cols@[r as int]@[k as int] == c
                && self.row(r as int, n)[c as int] == self.vals@[r as int]@[k as int]
                && 0 < self.vals@[r as int]@[k as int] < p,
            res is None ==> self.row(r as int, n)[c as int] == 0,
            res is Some <==> self.row(r as int, n)[c as int] != 0,
    {
        proof {
            assert(self.row_wf(r as int, n, p));
        }
        let res: Option<usize> = find_col(&self.cols[r], c);
        proof {
            let idx = self.cols@[r as int]@;
            let val = self.vals@[r as int]@;
            profile::lemma_coef_nonzero(idx, val, n, p, c as int);
            match res {
                Some(k) => {
                    profile::lemma_coef_listed(idx, val, k as int);
                    assert(0 < val[k as int] < p);
                },
                None => {},
            }
        }
        res
    }

    /// Replaces row `r`.
    pub fn replace(
        &mut self,
        r: usize,
        cols: Vec<u32>,
        vals: Vec<u64>,
        Ghost(n): Ghost<int>,
        Ghost(p): Ghost<int>,
    )
        requires
            old(self).wf(n, p),
            r < old(self).cols@.len(),
            profile::is_sparse(cols@, vals@, n, p),
            old(self).live_entries - old(self).cols@[r as int]@.len() + cols@.len() <= usize::MAX,
        ensures
            final(self).wf(n, p),
            final(self).cols@ == old(self).cols@.update(r as int, cols),
            final(self).vals@ == old(self).vals@.update(r as int, vals),
            final(self).orig == old(self).orig,
            final(self).live_entries == old(self).live_entries - old(self).cols@[r as int]@.len()
                + cols@.len(),
            final(self).rows(n) == old(self).rows(n).update(
                r as int,
                profile::expand(cols@, vals@, n),
            ),
    {
        let ghost before = *self;
        proof {
            lemma_total_update(self.cols@, r as int, cols);
        }
        self.live_entries = self.live_entries - self.cols[r].len() + cols.len();
        self.cols.set(r, cols);
        self.vals.set(r, vals);
        proof {
            assert forall|i: int| 0 <= i < self.cols@.len() implies #[trigger] self.row_wf(
                i,
                n,
                p,
            ) by {
                assert(before.row_wf(i, n, p));
            }
            assert(self.rows(n) =~= before.rows(n).update(
                r as int,
                profile::expand(cols@, vals@, n),
            ));
        }
    }

    /// Empties row `r`.
    pub fn clear(&mut self, r: usize, Ghost(n): Ghost<int>, Ghost(p): Ghost<int>)
        requires
            old(self).wf(n, p),
            r < old(self).cols@.len(),
        ensures
            final(self).wf(n, p),
            final(self).cols@.len() == old(self).cols@.len(),
            final(self).cols@[r as int]@.len() == 0,
            forall|i: int|
                0 <= i < old(self).cols@.len() && i != r ==> #[trigger] final(self).cols@[i]
                    == old(self).cols@[i],
            forall|i: int|
                0 <= i < old(self).cols@.len() && i != r ==> #[trigger] final(self).vals@[i]
                    == old(self).vals@[i],
            final(self).orig == old(self).orig,
            final(self).live_entries <= old(self).live_entries,
            final(self).rows(n) == old(self).rows(n).update(
                r as int,
                Seq::new(n as nat, |c: int| 0int),
            ),
    {
        let cols: Vec<u32> = Vec::new();
        let vals: Vec<u64> = Vec::new();
        proof {
            lemma_total_update(self.cols@, r as int, cols);
            assert(profile::expand(cols@, vals@, n) =~= Seq::new(n as nat, |c: int| 0int));
        }
        self.replace(r, cols, vals, Ghost(n), Ghost(p));
    }
}

/// Appending a larger column to a row.
pub proof fn lemma_coef_push(idx: Seq<u32>, val: Seq<u64>, c: u32, v: u64, j: int)
    requires
        idx.len() == val.len(),
        profile::ascending(idx),
        forall|k: int| 0 <= k < idx.len() ==> #[trigger] idx[k] < c,
    ensures
        profile::ascending(idx.push(c)),
        profile::coef(idx.push(c), val.push(v), j) == if j == c {
            v as int
        } else {
            profile::coef(idx, val, j)
        },
{
    let idx2: Seq<u32> = idx.push(c);
    let val2: Seq<u64> = val.push(v);
    assert(profile::ascending(idx2)) by {
        assert forall|a: int, b: int| 0 <= a < b < idx2.len() implies idx2[a] < idx2[b] by {
            if b == idx.len() {
                assert(idx[a] < c);
            }
        }
    }
    if j == c {
        profile::lemma_coef_listed(idx2, val2, idx.len() as int);
    } else if exists|k: int| 0 <= k < idx.len() && #[trigger] idx[k] == j {
        let k: int = choose|k: int| 0 <= k < idx.len() && #[trigger] idx[k] == j;
        assert(idx2[k] == j);
        profile::lemma_coef_listed(idx2, val2, k);
        profile::lemma_coef_listed(idx, val, k);
    } else {
        if exists|k: int| 0 <= k < idx2.len() && #[trigger] idx2[k] == j {
            let k: int = choose|k: int| 0 <= k < idx2.len() && #[trigger] idx2[k] == j;
            if k < idx.len() {
                assert(idx[k] == j);
            }
        }
    }
}

/// A column that no entry names has coefficient zero.
pub proof fn lemma_coef_absent(idx: Seq<u32>, val: Seq<u64>, j: int)
    requires
        !profile::is_pivot(idx, j),
    ensures
        profile::coef(idx, val, j) == 0,
{
}

/// Appending a column keeps the others listed.
proof fn lemma_pivot_push(idx: Seq<u32>, c: u32)
    ensures
        forall|x: int| #[trigger]
            profile::is_pivot(idx, x) ==> profile::is_pivot(idx.push(c), x),
{
    assert forall|x: int| #[trigger] profile::is_pivot(idx, x) implies profile::is_pivot(
        idx.push(c),
        x,
    ) by {
        let k: int = choose|k: int| 0 <= k < idx.len() && #[trigger] idx[k] == x;
        assert(idx.push(c)[k] == x);
    }
}

/// What the merge of a target and a pivot row holds at column `j`.
pub open spec fn merged(
    tc: Seq<u32>,
    tv: Seq<u64>,
    pc: Seq<u32>,
    pv: Seq<u64>,
    f: int,
    p: int,
    j: int,
) -> int {
    (profile::coef(tc, tv, j) - f * profile::coef(pc, pv, j)) % p
}

/// `target - f * pivot` over sorted sparse rows, by a two-pointer merge. The columns
/// that are in the result and not in the target are appended to `added`.
pub fn axpy_merge(
    tc: &Vec<u32>,
    tv: &Vec<u64>,
    pc: &Vec<u32>,
    pv: &Vec<u64>,
    f: u64,
    mont: &Mont,
    added: &mut Vec<u32>,
    Ghost(n): Ghost<int>,
) -> (out: (Vec<u32>, Vec<u64>))
    requires
        mont.wf(),
        f < mont.p,
        n >= 0,
        profile::is_sparse(tc@, tv@, n, mont.p as int),
        profile::is_sparse(pc@, pv@, n, mont.p as int),
    ensures
        profile::is_sparse(out.0@, out.1@, n, mont.p as int),
        forall|j: int|
            #[trigger] profile::coef(out.0@, out.1@, j) == merged(
                tc@,
                tv@,
                pc@,
                pv@,
                f as int,
                mont.p as int,
                j,
            ),
        forall|k: int|
            0 <= k < out.0@.len() ==> profile::is_pivot(tc@, #[trigger] out.0@[k] as int)
                || final(added)@.contains(out.0@[k]),
        forall|k: int| 0 <= k < old(added)@.len() ==> #[trigger] final(added)@[k] == old(added)@[k],
        old(added)@.len() <= final(added)@.len(),
        forall|k: int|
            old(added)@.len() <= k < final(added)@.len() ==> #[trigger] final(added)@[k] < n
                && profile::is_pivot(out.0@, final(added)@[k] as int) && !profile::is_pivot(
                tc@,
                final(added)@[k] as int,
            ),
        forall|a: int, b: int|
            old(added)@.len() <= a < b < final(added)@.len() ==> #[trigger] final(added)@[a]
                < #[trigger] final(added)@[b],
{
    let p: u64 = mont.p;
    let ghost q: int = p as int;
    let f_mont: u64 = mont.to_mont(f);
    let mut oc: Vec<u32> = Vec::new();
    let mut ov: Vec<u64> = Vec::new();
    let mut i: usize = 0;
    let mut j: usize = 0;
    let ghost added0 = added@;
    while i < tc.len() || j < pc.len()
        invariant
            mont.wf(),
            p == mont.p,
            q == p as int,
            f < p,
            f_mont < p,
            nt::cong(f_mont as int, f * crate::mont::radix(), q),
            profile::is_sparse(tc@, tv@, n, q),
            profile::is_sparse(pc@, pv@, n, q),
            i <= tc@.len(),
            j <= pc@.len(),
            profile::is_sparse(oc@, ov@, n, q),
            forall|a: int, b: int|
                0 <= a < oc@.len() && i <= b < tc@.len() ==> #[trigger] oc@[a] < #[trigger] tc@[b],
            forall|a: int, b: int|
                0 <= a < oc@.len() && j <= b < pc@.len() ==> #[trigger] oc@[a] < #[trigger] pc@[b],
            forall|a: int, b: int|
                0 <= a < i && j <= b < pc@.len() ==> #[trigger] tc@[a] < #[trigger] pc@[b],
            forall|a: int, b: int|
                0 <= a < j && i <= b < tc@.len() ==> #[trigger] pc@[a] < #[trigger] tc@[b],
            forall|k: int|
                0 <= k < i ==> profile::coef(oc@, ov@, #[trigger] tc@[k] as int) == merged(
                    tc@,
                    tv@,
                    pc@,
                    pv@,
                    f as int,
                    q,
                    tc@[k] as int,
                ),
            forall|k: int|
                0 <= k < j ==> profile::coef(oc@, ov@, #[trigger] pc@[k] as int) == merged(
                    tc@,
                    tv@,
                    pc@,
                    pv@,
                    f as int,
                    q,
                    pc@[k] as int,
                ),
            forall|k: int|
                0 <= k < oc@.len() ==> profile::is_pivot(tc@, #[trigger] oc@[k] as int)
                    || profile::is_pivot(pc@, oc@[k] as int),
            forall|k: int|
                0 <= k < oc@.len() ==> profile::is_pivot(tc@, #[trigger] oc@[k] as int)
                    || added@.contains(oc@[k]),
            added0.len() <= added@.len(),
            forall|k: int| 0 <= k < added0.len() ==> #[trigger] added@[k] == added0[k],
            forall|k: int|
                added0.len() <= k < added@.len() ==> #[trigger] added@[k] < n && profile::is_pivot(
                    oc@,
                    added@[k] as int,
                ) && !profile::is_pivot(tc@, added@[k] as int),
            forall|a: int, b: int|
                added0.len() <= a < b < added@.len() ==> #[trigger] added@[a]
                    < #[trigger] added@[b],
            forall|a: int, b: int|
                added0.len() <= a < added@.len() && j <= b < pc@.len() ==> #[trigger] added@[a]
                    < #[trigger] pc@[b],
        decreases tc@.len() - i + pc@.len() - j,
    {
        let ghost oc1 = oc@;
        let ghost ov1 = ov@;
        let ghost added1 = added@;
        if j == pc.len() || (i < tc.len() && tc[i] < pc[j]) {
            let ghost c: u32 = tc@[i as int];
            let ghost v: u64 = tv@[i as int];
            proof {
                assert(tc@[i as int] == c as int);
                assert(profile::is_pivot(tc@, c as int));
                profile::lemma_coef_listed(tc@, tv@, i as int);
                if profile::is_pivot(pc@, c as int) {
                    let k: int = choose|k: int| 0 <= k < pc@.len() && #[trigger] pc@[k] == c as int;
                    if k < j {
                        assert(pc@[k] < tc@[i as int]);
                    } else {
                        if j < k {
                            assert(pc@[j as int] < pc@[k]);
                        }
                    }
                }
                lemma_coef_absent(pc@, pv@, c as int);
                assert(f * 0 == 0) by (nonlinear_arith);
                nt::cong_mod(v as int, q);
                nt::cong_small(v as int % q, v as int, q);
                assert(merged(tc@, tv@, pc@, pv@, f as int, q, c as int) == v);
                assert forall|k: int| 0 <= k < oc1.len() implies #[trigger] oc1[k] < c by {}
                lemma_coef_push(oc1, ov1, c, v, c as int);
                assert forall|k: int| 0 <= k < i implies profile::coef(
                    oc1.push(c),
                    ov1.push(v),
                    #[trigger] tc@[k] as int,
                ) == merged(tc@, tv@, pc@, pv@, f as int, q, tc@[k] as int) by {
                    assert(tc@[k] < tc@[i as int]);
                    lemma_coef_push(oc1, ov1, c, v, tc@[k] as int);
                }
                assert forall|k: int| 0 <= k < j implies profile::coef(
                    oc1.push(c),
                    ov1.push(v),
                    #[trigger] pc@[k] as int,
                ) == merged(tc@, tv@, pc@, pv@, f as int, q, pc@[k] as int) by {
                    assert(pc@[k] < tc@[i as int]);
                    lemma_coef_push(oc1, ov1, c, v, pc@[k] as int);
                }
                assert forall|b: int| j <= b < pc@.len() implies c < #[trigger] pc@[b] by {
                    if j < b {
                        assert(pc@[j as int] < pc@[b]);
                    }
                }
                assert forall|b: int| i + 1 <= b < tc@.len() implies c < #[trigger] tc@[b] by {
                    assert(tc@[i as int] < tc@[b]);
                }
            }
            oc.push(tc[i]);
            ov.push(tv[i]);
            proof {
                lemma_pivot_push(oc1, c);
            }
            i += 1;
        } else if i == tc.len() || pc[j] < tc[i] {
            let ghost c: u32 = pc@[j as int];
            let d: u64 = mont.mulredc(f_mont, pv[j]);
            proof {
                assert(pc@[j as int] == c as int);
                assert(profile::is_pivot(pc@, c as int));
                profile::lemma_coef_listed(pc@, pv@, j as int);
                if profile::is_pivot(tc@, c as int) {
                    let k: int = choose|k: int| 0 <= k < tc@.len() && #[trigger] tc@[k] == c as int;
                    if k < i {
                        assert(tc@[k] < pc@[j as int]);
                    } else {
                        if i < k {
                            assert(tc@[i as int] < tc@[k]);
                        }
                    }
                }
                lemma_coef_absent(tc@, tv@, c as int);
                mont.lemma_plain_product(f as int, f_mont, pv@[j as int], d);
                lemma_merged_value(0, f as int, pv@[j as int] as int, d as int, q);
                assert forall|k: int| 0 <= k < oc1.len() implies #[trigger] oc1[k] < c by {}
                assert forall|b: int| i <= b < tc@.len() implies c < #[trigger] tc@[b] by {
                    if i < b {
                        assert(tc@[i as int] < tc@[b]);
                    }
                }
                assert forall|b: int| j + 1 <= b < pc@.len() implies c < #[trigger] pc@[b] by {
                    assert(pc@[j as int] < pc@[b]);
                }
            }
            if d != 0 {
                let v: u64 = p - d;
                proof {
                    lemma_coef_push(oc1, ov1, c, v, c as int);
                    assert forall|k: int| 0 <= k < i implies profile::coef(
                        oc1.push(c),
                        ov1.push(v),
                        #[trigger] tc@[k] as int,
                    ) == merged(tc@, tv@, pc@, pv@, f as int, q, tc@[k] as int) by {
                        assert(tc@[k] < pc@[j as int]);
                        lemma_coef_push(oc1, ov1, c, v, tc@[k] as int);
                    }
                    assert forall|k: int| 0 <= k < j implies profile::coef(
                        oc1.push(c),
                        ov1.push(v),
                        #[trigger] pc@[k] as int,
                    ) == merged(tc@, tv@, pc@, pv@, f as int, q, pc@[k] as int) by {
                        assert(pc@[k] < pc@[j as int]);
                        lemma_coef_push(oc1, ov1, c, v, pc@[k] as int);
                    }
                    assert(pc@[j as int] < n);
                }
                oc.push(pc[j]);
                ov.push(v);
                added.push(pc[j]);
                proof {
                    lemma_pivot_push(oc1, c);
                    assert(oc@[oc1.len() as int] == c as int);
                    assert(profile::is_pivot(oc@, c as int));
                    assert forall|k: int| added0.len() <= k < added@.len() implies #[trigger] added@[k]
                        < n && profile::is_pivot(oc@, added@[k] as int) && !profile::is_pivot(
                        tc@,
                        added@[k] as int,
                    ) by {
                        if k < added1.len() {
                            assert(added@[k] == added1[k]);
                        }
                    }
                    assert forall|a: int, b: int| added0.len() <= a < b < added@.len() implies
                    #[trigger] added@[a] < #[trigger] added@[b] by {
                        assert(added@[a] == added1[a]);
                        if b < added1.len() {
                            assert(added@[b] == added1[b]);
                        } else {
                            assert(added1[a] < pc@[j as int]);
                        }
                    }
                    assert forall|a: int, b: int|
                        added0.len() <= a < added@.len() && j + 1 <= b < pc@.len() implies
                    #[trigger] added@[a] < #[trigger] pc@[b] by {
                        if a < added1.len() {
                            assert(added@[a] == added1[a]);
                        } else {
                            assert(pc@[j as int] < pc@[b]);
                        }
                    }
                    assert forall|k: int| 0 <= k < oc@.len() implies profile::is_pivot(
                        tc@,
                        #[trigger] oc@[k] as int,
                    ) || added@.contains(oc@[k]) by {
                        if k < oc1.len() {
                            assert(oc@[k] == oc1[k]);
                            if added1.contains(oc1[k]) {
                                let b: int = choose|b: int|
                                    0 <= b < added1.len() && added1[b] == oc1[k];
                                assert(added@[b] == oc@[k]);
                            }
                        } else {
                            assert(added@[added1.len() as int] == oc@[k]);
                        }
                    }
                }
            } else {
                proof {
                    if profile::is_pivot(oc1, c as int) {
                        let k: int = choose|k: int|
                            0 <= k < oc1.len() && #[trigger] oc1[k] == c as int;
                        assert(oc1[k] < pc@[j as int]);
                    }
                    lemma_coef_absent(oc1, ov1, c as int);
                }
            }
            j += 1;
        } else {
            let ghost c: u32 = tc@[i as int];
            let d: u64 = mont.mulredc(f_mont, pv[j]);
            proof {
                assert(tv@[i as int] < q);
            }
            let v: u64 = submod(tv[i], d, p);
            proof {
                assert(tc@[i as int] == c as int);
                assert(pc@[j as int] == c as int);
                assert(profile::is_pivot(tc@, c as int));
                profile::lemma_coef_listed(tc@, tv@, i as int);
                profile::lemma_coef_listed(pc@, pv@, j as int);
                mont.lemma_plain_product(f as int, f_mont, pv@[j as int], d);
                lemma_merged_value(tv@[i as int] as int, f as int, pv@[j as int] as int, d as int, q);
                assert(merged(tc@, tv@, pc@, pv@, f as int, q, c as int) == v);
                assert forall|k: int| 0 <= k < oc1.len() implies #[trigger] oc1[k] < c by {}
                assert forall|b: int| i + 1 <= b < tc@.len() implies c < #[trigger] tc@[b] by {
                    assert(tc@[i as int] < tc@[b]);
                }
                assert forall|b: int| j + 1 <= b < pc@.len() implies c < #[trigger] pc@[b] by {
                    assert(pc@[j as int] < pc@[b]);
                }
            }
            if v != 0 {
                proof {
                    lemma_coef_push(oc1, ov1, c, v, c as int);
                    assert forall|k: int| 0 <= k < i implies profile::coef(
                        oc1.push(c),
                        ov1.push(v),
                        #[trigger] tc@[k] as int,
                    ) == merged(tc@, tv@, pc@, pv@, f as int, q, tc@[k] as int) by {
                        assert(tc@[k] < tc@[i as int]);
                        lemma_coef_push(oc1, ov1, c, v, tc@[k] as int);
                    }
                    assert forall|k: int| 0 <= k < j implies profile::coef(
                        oc1.push(c),
                        ov1.push(v),
                        #[trigger] pc@[k] as int,
                    ) == merged(tc@, tv@, pc@, pv@, f as int, q, pc@[k] as int) by {
                        assert(pc@[k] < pc@[j as int]);
                        lemma_coef_push(oc1, ov1, c, v, pc@[k] as int);
                    }
                }
                oc.push(tc[i]);
                ov.push(v);
                proof {
                    lemma_pivot_push(oc1, c);
                }
            } else {
                proof {
                    if profile::is_pivot(oc1, c as int) {
                        let k: int = choose|k: int|
                            0 <= k < oc1.len() && #[trigger] oc1[k] == c as int;
                        assert(oc1[k] < tc@[i as int]);
                    }
                    lemma_coef_absent(oc1, ov1, c as int);
                }
            }
            i += 1;
            j += 1;
        }
    }
    proof {
        assert forall|c: int|
            #[trigger] profile::coef(oc@, ov@, c) == merged(
                tc@,
                tv@,
                pc@,
                pv@,
                f as int,
                q,
                c,
            ) by {
            if profile::is_pivot(tc@, c) {
                let k: int = choose|k: int| 0 <= k < tc@.len() && #[trigger] tc@[k] == c;
                assert(profile::coef(oc@, ov@, tc@[k] as int) == merged(
                    tc@,
                    tv@,
                    pc@,
                    pv@,
                    f as int,
                    q,
                    tc@[k] as int,
                ));
            } else if profile::is_pivot(pc@, c) {
                let k: int = choose|k: int| 0 <= k < pc@.len() && #[trigger] pc@[k] == c;
                assert(profile::coef(oc@, ov@, pc@[k] as int) == merged(
                    tc@,
                    tv@,
                    pc@,
                    pv@,
                    f as int,
                    q,
                    pc@[k] as int,
                ));
            } else {
                if profile::is_pivot(oc@, c) {
                    let k: int = choose|k: int| 0 <= k < oc@.len() && #[trigger] oc@[k] == c;
                    assert(profile::is_pivot(tc@, oc@[k] as int) || profile::is_pivot(
                        pc@,
                        oc@[k] as int,
                    ));
                }
                lemma_coef_absent(oc@, ov@, c);
                assert(f * 0 == 0) by (nonlinear_arith);
                nt::cong_mod(0, q);
                nt::cong_small(0int % q, 0, q);
            }
        }
    }
    (oc, ov)
}

/// The residue of `t - f * x`, with the product `d` already reduced.
proof fn lemma_merged_value(t: int, f: int, x: int, d: int, q: int)
    requires
        q > 0,
        0 <= t < q,
        0 <= d < q,
        nt::cong(d, f * x, q),
    ensures
        (t - f * x) % q == (t - d) % q,
        t == 0 ==> (t - f * x) % q == if d == 0 {
            0
        } else {
            q - d
        },
{
    nt::cong_refl(t, q);
    nt::cong_minus(t, t, d, f * x, q);
    nt::cong_iff_mod(t - d, t - f * x, q);
    if t == 0 {
        nt::cong_mod(-d, q);
        if d == 0 {
            nt::cong_small(0int % q, 0, q);
        } else {
            nt::cong_from_quotient(-d, q - d, q, -1);
            nt::cong_trans((-d) % q, -d, q - d, q);
            nt::cong_small((-d) % q, q - d, q);
        }
    }
}

/// The merge is a row operation.
pub proof fn lemma_merge_is_axpy(
    tc: Seq<u32>,
    tv: Seq<u64>,
    pc: Seq<u32>,
    pv: Seq<u64>,
    oc: Seq<u32>,
    ov: Seq<u64>,
    f: int,
    n: int,
    p: int,
)
    requires
        p > 0,
        forall|j: int|
            #[trigger] profile::coef(oc, ov, j) == merged(tc, tv, pc, pv, f, p, j),
    ensures
        linalg::is_axpy(
            profile::expand(oc, ov, n),
            profile::expand(tc, tv, n),
            profile::expand(pc, pv, n),
            f,
            p,
        ),
{
    let out: Seq<int> = profile::expand(oc, ov, n);
    let t: Seq<int> = profile::expand(tc, tv, n);
    let r: Seq<int> = profile::expand(pc, pv, n);
    assert forall|j: int| 0 <= j < t.len() implies nt::cong(#[trigger] out[j], t[j] - f * r[j], p) by {
        assert(out[j] == profile::coef(oc, ov, j));
        assert(t[j] == profile::coef(tc, tv, j));
        assert(r[j] == profile::coef(pc, pv, j));
        nt::cong_mod(t[j] - f * r[j], p);
    }
}

} // verus!
