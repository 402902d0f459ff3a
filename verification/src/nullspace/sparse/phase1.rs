//! Row-space reduction in free pivot order: the sparsest active row, and in it the
//! column that the fewest active rows hold.

use super::dense_core::{dense_core, plan_core, CorePlan};
use super::fill;
use super::heap;
use super::heap::MinHeap;
use super::state;
use super::store;
use super::store::{axpy_merge, RowStore};
use super::Params;
use crate::linalg;
use crate::mont::Mont;
use crate::nt;
use crate::nullspace::arith::{invmod, mulmod};
use crate::nullspace::profile;
use crate::nullspace::NullspaceError;
use crate::rowspace;
use vstd::prelude::*;

verus! {

/// The list names row `t`.
pub open spec fn lists(s: Seq<usize>, t: int) -> bool {
    exists|k: int| 0 <= k < s.len() && #[trigger] s[k] == t
}

/// Every active row is listed under each of its columns.
pub open spec fn adjacent(st: &RowStore, active: Seq<bool>, col_rows: Seq<Vec<usize>>) -> bool {
    forall|t: int, k: int|
        0 <= t < st.cols@.len() && active[t] && 0 <= k < st.cols@[t]@.len() ==> lists(
            col_rows[#[trigger] st.cols@[t]@[k] as int]@,
            t,
        )
}

/// Every name in the lists is a row.
pub open spec fn names_rows(col_rows: Seq<Vec<usize>>, m: int) -> bool {
    forall|c: int, k: int|
        0 <= c < col_rows.len() && 0 <= k < col_rows[c]@.len() ==> #[trigger] col_rows[c]@[k] < m
}

/// Every active row with entries, except `skip`, is queued under its length.
pub open spec fn queued(st: &RowStore, active: Seq<bool>, heap: &MinHeap, skip: int) -> bool {
    forall|t: int|
        0 <= t < st.cols@.len() && #[trigger] active[t] && t != skip && st.cols@[t]@.len() > 0
            ==> heap.holds((st.cols@[t]@.len() as usize, t as usize))
}

/// The counts that steer the pivot choice.
struct Counts {
    /// The number of active rows that hold each column.
    colcount: Vec<usize>,
    /// The number of columns that an active row holds.
    active_cols: usize,
    /// The number of active rows.
    active_rows: usize,
}

/// How many of the first `k` counts are positive.
pub open spec fn positive_upto(cc: Seq<usize>, k: int) -> nat
    decreases k,
{
    if k <= 0 {
        0
    } else {
        positive_upto(cc, k - 1) + if cc[k - 1] > 0 {
            1nat
        } else {
            0
        }
    }
}

/// One count more or less changes how many are positive.
proof fn lemma_positive_update(cc: Seq<usize>, c: int, v: usize, k: int)
    requires
        0 <= c < cc.len(),
        0 <= k <= cc.len(),
    ensures
        positive_upto(cc, k) <= k,
        c < k && cc[c] > 0 ==> positive_upto(cc, k) > 0,
        positive_upto(cc.update(c, v), k) <= k,
        positive_upto(cc.update(c, v), k) == positive_upto(cc, k) + (if c < k && v > 0 {
            1int
        } else {
            0
        }) - (if c < k && cc[c] > 0 {
            1int
        } else {
            0
        }),
    decreases k,
{
    if k > 0 {
        lemma_positive_update(cc, c, v, k - 1);
    }
}

/// The list holds column `c` among its first `k`.
spec fn among(cols: Seq<u32>, k: int, c: int) -> bool {
    exists|i: int| 0 <= i < k && #[trigger] cols[i] == c
}

impl Counts {
    /// The columns with a positive count are counted.
    spec fn wf(&self) -> bool {
        self.active_cols == positive_upto(self.colcount@, self.colcount@.len() as int)
    }

    /// The counts are those of the stage.
    spec fn count(&self, s: fill::Stage) -> bool {
        &&& self.wf()
        &&& self.colcount@.len() == s.held.len()
        &&& forall|c: int|
            0 <= c < s.held.len() ==> #[trigger] self.colcount@[c] == fill::column_count(s, c)
        &&& self.active_rows == fill::active_rows(s.active, s.rows.len() as int).len()
    }

    /// A row with these columns is no longer active.
    fn row_out(&mut self, cols: &Vec<u32>)
        requires
            old(self).wf(),
            profile::ascending(cols@),
            forall|k: int|
                0 <= k < cols@.len() ==> #[trigger] cols@[k] < old(self).colcount@.len()
                    && old(self).colcount@[cols@[k] as int] > 0,
        ensures
            final(self).wf(),
            final(self).active_rows == old(self).active_rows,
            final(self).colcount@.len() == old(self).colcount@.len(),
            forall|c: int|
                0 <= c < old(self).colcount@.len() ==> #[trigger] final(self).colcount@[c] == old(
                    self,
                ).colcount@[c] - (if profile::is_pivot(cols@, c) {
                    1int
                } else {
                    0
                }),
    {
        let ghost cc0 = self.colcount@;
        let mut k: usize = 0;
        while k < cols.len()
            invariant
                k <= cols@.len(),
                self.wf(),
                self.active_rows == old(self).active_rows,
                cc0 == old(self).colcount@,
                self.colcount@.len() == cc0.len(),
                profile::ascending(cols@),
                forall|i: int|
                    0 <= i < cols@.len() ==> #[trigger] cols@[i] < cc0.len() && cc0[cols@[i] as int]
                        > 0,
                forall|c: int|
                    0 <= c < cc0.len() ==> #[trigger] self.colcount@[c] == cc0[c] - (if among(
                        cols@,
                        k as int,
                        c,
                    ) {
                        1int
                    } else {
                        0
                    }),
            decreases cols@.len() - k,
        {
            let c: usize = cols[k] as usize;
            let ghost cc1 = self.colcount@;
            proof {
                lemma_among_step(cols@, k as int);
                assert(!among(cols@, k as int, c as int));
                assert(self.colcount@[c as int] == cc0[c as int]);
            }
            let left: usize = self.colcount[c] - 1;
            proof {
                lemma_positive_update(cc1, c as int, left, cc1.len() as int);
            }
            self.colcount.set(c, left);
            if left == 0 {
                self.active_cols = self.active_cols - 1;
            }
            k += 1;
        }
    }

    /// A row with these columns is active.
    fn row_in(&mut self, cols: &Vec<u32>)
        requires
            old(self).wf(),
            profile::ascending(cols@),
            forall|k: int|
                0 <= k < cols@.len() ==> #[trigger] cols@[k] < old(self).colcount@.len()
                    && old(self).colcount@[cols@[k] as int] < usize::MAX,
        ensures
            final(self).wf(),
            final(self).active_rows == old(self).active_rows,
            final(self).colcount@.len() == old(self).colcount@.len(),
            forall|c: int|
                0 <= c < old(self).colcount@.len() ==> #[trigger] final(self).colcount@[c] == old(
                    self,
                ).colcount@[c] + (if profile::is_pivot(cols@, c) {
                    1int
                } else {
                    0
                }),
    {
        let ghost cc0 = self.colcount@;
        let mut k: usize = 0;
        while k < cols.len()
            invariant
                k <= cols@.len(),
                self.wf(),
                self.active_rows == old(self).active_rows,
                cc0 == old(self).colcount@,
                self.colcount@.len() == cc0.len(),
                profile::ascending(cols@),
                forall|i: int|
                    0 <= i < cols@.len() ==> #[trigger] cols@[i] < cc0.len() && cc0[cols@[i] as int]
                        < usize::MAX,
                forall|c: int|
                    0 <= c < cc0.len() ==> #[trigger] self.colcount@[c] == cc0[c] + (if among(
                        cols@,
                        k as int,
                        c,
                    ) {
                        1int
                    } else {
                        0
                    }),
            decreases cols@.len() - k,
        {
            let c: usize = cols[k] as usize;
            let ghost cc1 = self.colcount@;
            proof {
                lemma_among_step(cols@, k as int);
                assert(!among(cols@, k as int, c as int));
                assert(self.colcount@[c as int] == cc0[c as int]);
            }
            let held: usize = self.colcount[c];
            proof {
                lemma_positive_update(cc1, c as int, (held + 1) as usize, cc1.len() as int);
                assert(cc1.len() == self.colcount.len());
            }
            if held == 0 {
                self.active_cols = self.active_cols + 1;
            }
            self.colcount.set(c, held + 1);
            k += 1;
        }
    }

    /// The place, in the row, of the column that the fewest active rows hold.
    fn pick_column(&self, cols: &Vec<u32>) -> (best: usize)
        requires
            cols@.len() > 0,
            forall|k: int| 0 <= k < cols@.len() ==> #[trigger] cols@[k] < self.colcount@.len(),
        ensures
            best < cols@.len(),
            forall|k: int|
                0 <= k < cols@.len() ==> self.colcount@[cols@[best as int] as int]
                    <= self.colcount@[#[trigger] cols@[k] as int],
            forall|k: int|
                0 <= k < best ==> self.colcount@[cols@[best as int] as int]
                    < self.colcount@[#[trigger] cols@[k] as int],
    {
        let mut best: usize = 0;
        let mut k: usize = 1;
        while k < cols.len()
            invariant
                1 <= k <= cols@.len(),
                best < k,
                forall|i: int| 0 <= i < cols@.len() ==> #[trigger] cols@[i] < self.colcount@.len(),
                forall|i: int|
                    0 <= i < k ==> self.colcount@[cols@[best as int] as int]
                        <= self.colcount@[#[trigger] cols@[i] as int],
                forall|i: int|
                    0 <= i < best ==> self.colcount@[cols@[best as int] as int]
                        < self.colcount@[#[trigger] cols@[i] as int],
            decreases cols@.len() - k,
        {
            if self.colcount[cols[k] as usize] < self.colcount[cols[best] as usize] {
                best = k;
            }
            k += 1;
        }
        best
    }
}

/// One column more in the list.
proof fn lemma_among_step(cols: Seq<u32>, k: int)
    requires
        profile::ascending(cols),
        0 <= k < cols.len(),
    ensures
        !among(cols, k, cols[k] as int),
        forall|c: int| #[trigger] among(cols, k + 1, c) <==> among(cols, k, c) || c == cols[k],
        k + 1 == cols.len() ==> forall|c: int| #[trigger]
            profile::is_pivot(cols, c) <==> among(cols, k + 1, c),
{
    if among(cols, k, cols[k] as int) {
        let i: int = choose|i: int| 0 <= i < k && #[trigger] cols[i] == cols[k] as int;
        assert(cols[i] < cols[k]);
    }
    assert forall|c: int| #[trigger] among(cols, k + 1, c) <==> among(cols, k, c) || c == cols[k] by {
        if among(cols, k + 1, c) {
            let i: int = choose|i: int| 0 <= i < k + 1 && #[trigger] cols[i] == c;
            if i < k {
                assert(cols[i] == c);
            }
        }
        if among(cols, k, c) {
            let i: int = choose|i: int| 0 <= i < k && #[trigger] cols[i] == c;
            assert(cols[i] == c);
        }
        if c == cols[k] {
            assert(cols[k] == c);
        }
    }
}

/// Lists row `t` under the columns `added`.
pub fn list_row(col_rows: &mut Vec<Vec<usize>>, added: &Vec<u32>, t: usize, n: usize, m: usize)
    requires
        old(col_rows)@.len() == n,
        t < m,
        names_rows(old(col_rows)@, m as int),
        profile::ascending(added@),
        forall|k: int| 0 <= k < added@.len() ==> #[trigger] added@[k] < n,
    ensures
        final(col_rows)@.len() == n,
        names_rows(final(col_rows)@, m as int),
        forall|c: int|
            0 <= c < n ==> (#[trigger] final(col_rows)@[c])@ == if profile::is_pivot(added@, c) {
                old(col_rows)@[c]@.push(t)
            } else {
                old(col_rows)@[c]@
            },
        forall|c: int, s: int|
            0 <= c < n && lists(old(col_rows)@[c]@, s) ==> #[trigger] lists(
                final(col_rows)@[c]@,
                s,
            ),
        forall|k: int|
            0 <= k < added@.len() ==> lists(
                final(col_rows)@[#[trigger] added@[k] as int]@,
                t as int,
            ),
        forall|c: int, k: int|
            0 <= c < n && 0 <= k < final(col_rows)@[c]@.len() ==>
            #[trigger] final(col_rows)@[c]@[k] == t || lists(old(col_rows)@[c]@, final(col_rows)@[c]@[k] as int),
{
    let ghost begin = col_rows@;
    let mut k: usize = 0;
    while k < added.len()
        invariant
            k <= added@.len(),
            col_rows@.len() == n,
            begin.len() == n,
            profile::ascending(added@),
            forall|k: int| 0 <= k < added@.len() ==> #[trigger] added@[k] < n,
            forall|c: int|
                0 <= c < n ==> (#[trigger] col_rows@[c])@ == if among(added@, k as int, c) {
                    begin[c]@.push(t)
                } else {
                    begin[c]@
                },
        decreases added@.len() - k,
    {
        let c: usize = added[k] as usize;
        assert(added@[k as int] < n);
        let ghost before = col_rows@;
        proof {
            lemma_among_step(added@, k as int);
        }
        col_rows[c].push(t);
        proof {
            let now = col_rows@;
            assert(now[c as int]@ == before[c as int]@.push(t));
            assert(before[c as int]@ == begin[c as int]@);
            assert forall|d: int| 0 <= d < n implies (#[trigger] now[d])@ == if among(
                added@,
                k + 1,
                d,
            ) {
                begin[d]@.push(t)
            } else {
                begin[d]@
            } by {
                if d != c {
                    assert(now[d] == before[d]);
                }
            }
        }
        k += 1;
    }
    proof {
        let now = col_rows@;
        assert forall|c: int| 0 <= c < n implies (#[trigger] now[c])@ == if profile::is_pivot(
            added@,
            c,
        ) {
            begin[c]@.push(t)
        } else {
            begin[c]@
        } by {
            assert(now[c]@ == if among(added@, k as int, c) {
                begin[c]@.push(t)
            } else {
                begin[c]@
            });
            if among(added@, k as int, c) {
                let i: int = choose|i: int| 0 <= i < k && #[trigger] added@[i] == c;
                assert(added@[i] == c);
            }
            if profile::is_pivot(added@, c) {
                let i: int = choose|i: int| 0 <= i < added@.len() && #[trigger] added@[i] == c;
                assert(added@[i] == c);
            }
        }
        assert forall|c: int, s: int| 0 <= c < n && lists(begin[c]@, s) implies #[trigger] lists(
            now[c]@,
            s,
        ) by {
            let j: int = choose|j: int| 0 <= j < begin[c]@.len() && #[trigger] begin[c]@[j] == s;
            assert(now[c]@[j] == s);
        }
        assert forall|i: int| 0 <= i < added@.len() implies lists(
            now[#[trigger] added@[i] as int]@,
            t as int,
        ) by {
            let c: int = added@[i] as int;
            assert(added@[i] == c);
            assert(profile::is_pivot(added@, c));
            assert(now[c]@[begin[c]@.len() as int] == t as int);
        }
        assert forall|c: int, i: int| 0 <= c < n && 0 <= i < now[c]@.len() implies #[trigger] now[c]@[i]
            == t || lists(begin[c]@, now[c]@[i] as int) by {
            if i < begin[c]@.len() {
                assert(begin[c]@[i] == now[c]@[i] as int);
            }
        }
        assert forall|c: int, i: int| 0 <= c < n && 0 <= i < now[c]@.len() implies #[trigger] now[c]@[i]
            < m by {
            if i < begin[c]@.len() {
                assert(begin[c]@[i] < m);
            }
        }
    }
}

/// As `adjacent`, but for row `r` and for column `c`.
pub open spec fn adjacent_but(
    st: &RowStore,
    active: Seq<bool>,
    col_rows: Seq<Vec<usize>>,
    r: int,
    c: int,
) -> bool {
    forall|t: int, k: int|
        0 <= t < st.cols@.len() && active[t] && t != r && 0 <= k < st.cols@[t]@.len()
            && st.cols@[t]@[k] != c ==> lists(col_rows[#[trigger] st.cols@[t]@[k] as int]@, t)
}

/// The rows of `st` that were not active, and row `r`, are those of `st0`; a row that
/// stopped being active is empty.
pub open spec fn kept(
    st0: &RowStore,
    st: &RowStore,
    active0: Seq<bool>,
    active: Seq<bool>,
    r: int,
) -> bool {
    &&& st.cols@.len() == st0.cols@.len()
    &&& st.orig == st0.orig
    &&& active0.len() == st0.cols@.len()
    &&& active.len() == active0.len()
    &&& active[r]
    &&& forall|t: int| 0 <= t < active.len() && #[trigger] active[t] ==> active0[t]
    &&& forall|t: int|
        0 <= t < active.len() && active0[t] && !#[trigger] active[t] ==> st.cols@[t]@.len() == 0
    &&& forall|t: int|
        0 <= t < st0.cols@.len() && (t == r || !active0[t]) ==> #[trigger] st.cols@[t]
            == st0.cols@[t]
    &&& forall|t: int|
        0 <= t < st0.cols@.len() && (t == r || !active0[t]) ==> #[trigger] st.vals@[t]
            == st0.vals@[t]
}

/// Each row but `r` has lost a multiple of row `r`, and with it its entry in column
/// `c`, or is unchanged.
pub open spec fn reduced_by(
    st0: &RowStore,
    st: &RowStore,
    r: int,
    c: int,
    fs: Seq<int>,
    n: int,
    p: int,
) -> bool {
    &&& fs.len() == st0.cols@.len()
    &&& forall|t: int|
        0 <= t < st0.cols@.len() && t != r ==> linalg::is_axpy(
            #[trigger] st.rows(n)[t],
            st0.rows(n)[t],
            st0.rows(n)[r],
            fs[t],
            p,
        )
    &&& forall|t: int|
        0 <= t < st0.cols@.len() && t != r ==> #[trigger] st.rows(n)[t] == st0.rows(n)[t]
            || st.rows(n)[t][c] == 0
}

/// Taking `x / y` times `y` from `x` leaves zero.
proof fn lemma_merge_clears(x: int, y: int, inv: int, p: int)
    requires
        p > 1,
        nt::cong(inv * y, 1, p),
    ensures
        (x - ((x * inv) % p) * y) % p == 0,
{
    let f: int = (x * inv) % p;
    nt::cong_mod(x * inv, p);
    nt::cong_refl(y, p);
    nt::cong_times(f, x * inv, y, y, p);
    assert((x * inv) * y == x * (inv * y)) by (nonlinear_arith);
    nt::cong_scale(x, inv * y, 1, p);
    assert(x * 1 == x);
    nt::cong_trans(f * y, x * (inv * y), x, p);
    nt::cong_refl(x, p);
    nt::cong_minus(x, x, f * y, x, p);
}

/// The pivot step's working state besides the rows.
struct Work {
    active: Vec<bool>,
    col_rows: Vec<Vec<usize>>,
    counts: Counts,
    heap: MinHeap,
}

impl Work {
    /// The parts fit a store of `m` rows and `n` columns.
    spec fn fits(&self, m: int, n: int) -> bool {
        &&& self.active@.len() == m
        &&& self.col_rows@.len() == n
        &&& names_rows(self.col_rows@, m)
        &&& self.counts.colcount@.len() == n
        &&& self.heap.wf()
    }
}

/// The lists, as lists of mathematical integers.
pub open spec fn lists_of(col_rows: Seq<Vec<usize>>) -> Seq<Seq<int>> {
    Seq::new(col_rows.len(), |c: int| state::ints(col_rows[c]@))
}

/// The stage that the store and the working state stand for.
spec fn stage(st: &RowStore, work: &Work, done: Seq<int>, n: int) -> fill::Stage {
    fill::Stage {
        rows: st.rows(n),
        active: work.active@,
        held: lists_of(work.col_rows@),
        done,
    }
}

/// Row `t` counts among the holders of column `c`.
spec fn counts_in(s: fill::Stage, t: int, c: int) -> int {
    if s.active[t] && s.rows[t][c] != 0 {
        1
    } else {
        0
    }
}

/// Where two stages differ in one row, the holders of a column differ by that row.
proof fn lemma_holders_update(s: fill::Stage, s2: fill::Stage, c: int, t: int, k: int)
    requires
        0 <= k,
        forall|i: int|
            0 <= i < k && i != t ==> #[trigger] s2.active[i] == s.active[i] && s2.rows[i]
                == s.rows[i],
    ensures
        0 <= t < k ==> fill::holders(s2, c, k) == fill::holders(s, c, k) - counts_in(s, t, c)
            + counts_in(s2, t, c),
        !(0 <= t < k) ==> fill::holders(s2, c, k) == fill::holders(s, c, k),
        0 <= t < k ==> counts_in(s, t, c) <= fill::holders(s, c, k) <= k - 1 + counts_in(s, t, c),
        fill::holders(s, c, k) <= k,
    decreases k,
{
    if k > 0 {
        lemma_holders_update(s, s2, c, t, k - 1);
        if k - 1 != t {
            assert(s2.active[k - 1] == s.active[k - 1]);
        }
    }
}

/// One row that is no longer active.
proof fn lemma_active_update(active: Seq<bool>, t: int, k: int)
    requires
        0 <= t < active.len(),
        0 <= k <= active.len(),
        active[t],
    ensures
        fill::active_rows(active.update(t, false), k).len() == fill::active_rows(active, k).len()
            - (if t < k {
            1int
        } else {
            0
        }),
        t < k ==> fill::active_rows(active, k).len() > 0,
    decreases k,
{
    if k > 0 {
        lemma_active_update(active, t, k - 1);
    }
}

/// The merged row is the cleared row.
pub proof fn lemma_row_cleared(
    st: &RowStore,
    t: int,
    r: int,
    c: int,
    winv: int,
    nc: Seq<u32>,
    nv: Seq<u64>,
    n: int,
    p: int,
)
    requires
        nt::is_prime(p),
        0 <= c < n,
        0 <= t < st.cols@.len(),
        0 <= r < st.cols@.len(),
        nt::cong(winv * st.rows(n)[r][c], 1, p),
        forall|j: int|
            #[trigger] profile::coef(nc, nv, j) == store::merged(
                st.cols@[t]@,
                st.vals@[t]@,
                st.cols@[r]@,
                st.vals@[r]@,
                (st.rows(n)[t][c] * winv) % p,
                p,
                j,
            ),
    ensures
        profile::expand(nc, nv, n) == fill::cleared(st.rows(n)[t], st.rows(n)[r], c, p),
{
    fill::lemma_quotient_by_inverse(st.rows(n)[t][c], st.rows(n)[r][c], winv, p);
    assert(profile::expand(nc, nv, n) =~= fill::cleared(st.rows(n)[t], st.rows(n)[r], c, p));
}

/// A stored row has as many entries as it lists.
spec fn entries_are(st: &RowStore, n: int) -> bool {
    forall|t: int|
        0 <= t < st.cols@.len() ==> fill::entries(#[trigger] st.rows(n)[t]) == st.cols@[t]@.len()
}

/// Listing a row under the columns that are new to it.
pub proof fn lemma_listing(
    a: Seq<Vec<usize>>,
    b: Seq<Vec<usize>>,
    added: Seq<u32>,
    tc: Seq<u32>,
    tv: Seq<u64>,
    nc: Seq<u32>,
    nv: Seq<u64>,
    t: usize,
    n: int,
    p: int,
)
    requires
        a.len() == n,
        b.len() == n,
        profile::is_sparse(tc, tv, n, p),
        profile::is_sparse(nc, nv, n, p),
        forall|c: int|
            0 <= c < n ==> (#[trigger] b[c])@ == if profile::is_pivot(added, c) {
                a[c]@.push(t)
            } else {
                a[c]@
            },
        forall|k: int|
            0 <= k < nc.len() ==> profile::is_pivot(tc, #[trigger] nc[k] as int)
                || added.contains(nc[k]),
        forall|k: int|
            0 <= k < added.len() ==> profile::is_pivot(nc, #[trigger] added[k] as int)
                && !profile::is_pivot(tc, added[k] as int),
    ensures
        lists_of(b) == fill::listing(
            lists_of(a),
            profile::expand(tc, tv, n),
            profile::expand(nc, nv, n),
            t as int,
        ),
{
    let want: Seq<Seq<int>> = fill::listing(
        lists_of(a),
        profile::expand(tc, tv, n),
        profile::expand(nc, nv, n),
        t as int,
    );
    assert forall|c: int| 0 <= c < n implies #[trigger] lists_of(b)[c] == want[c] by {
        profile::lemma_coef_nonzero(tc, tv, n, p, c);
        profile::lemma_coef_nonzero(nc, nv, n, p, c);
        assert(profile::is_pivot(added, c) <==> profile::is_pivot(nc, c) && !profile::is_pivot(
            tc,
            c,
        )) by {
            if profile::is_pivot(added, c) {
                let k: int = choose|k: int| 0 <= k < added.len() && #[trigger] added[k] == c;
                assert(profile::is_pivot(nc, added[k] as int));
            }
            if profile::is_pivot(nc, c) && !profile::is_pivot(tc, c) {
                let k: int = choose|k: int| 0 <= k < nc.len() && #[trigger] nc[k] == c;
                assert(added.contains(nc[k]));
                let i: int = choose|i: int| 0 <= i < added.len() && added[i] == nc[k];
                assert(added[i] == c);
            }
        }
        assert(b[c]@ == if profile::is_pivot(added, c) {
            a[c]@.push(t)
        } else {
            a[c]@
        });
        assert(state::ints(a[c]@.push(t)) =~= state::ints(a[c]@).push(t as int));
    }
    assert(lists_of(b) =~= want);
}

/// Row `t` leaves the counts as it was and enters them as it is.
proof fn lemma_recount(s: fill::Stage, s2: fill::Stage, a: Counts, b: Counts, t: int)
    requires
        a.count(s),
        b.wf(),
        0 <= t < s.rows.len(),
        s.active.len() == s.rows.len(),
        s.active[t],
        s2.rows.len() == s.rows.len(),
        s2.held.len() == s.held.len(),
        s2.active == s.active || s2.active == s.active.update(t, false),
        forall|i: int| 0 <= i < s.rows.len() && i != t ==> #[trigger] s2.rows[i] == s.rows[i],
        b.colcount@.len() == a.colcount@.len(),
        forall|c: int|
            0 <= c < s.held.len() ==> #[trigger] b.colcount@[c] == a.colcount@[c] - counts_in(
                s,
                t,
                c,
            ) + counts_in(s2, t, c),
        b.active_rows == a.active_rows - (if s2.active[t] {
            0int
        } else {
            1
        }),
    ensures
        b.count(s2),
{
    let m: int = s.rows.len() as int;
    assert forall|c: int| 0 <= c < s2.held.len() implies #[trigger] b.colcount@[c]
        == fill::column_count(s2, c) by {
        assert(a.colcount@[c] == fill::column_count(s, c));
        assert forall|i: int| 0 <= i < m && i != t implies #[trigger] s2.active[i] == s.active[i]
            && s2.rows[i] == s.rows[i] by {}
        lemma_holders_update(s, s2, c, t, m);
    }
    lemma_active_update(s.active, t, m);
}

/// The counts do not depend on the lists or the pivot rows.
proof fn lemma_count_same(s: fill::Stage, s2: fill::Stage, a: Counts)
    requires
        a.count(s),
        s2.rows == s.rows,
        s2.active == s.active,
        s2.held.len() == s.held.len(),
    ensures
        a.count(s2),
{
    assert forall|c: int| 0 <= c < s2.held.len() implies #[trigger] a.colcount@[c]
        == fill::column_count(s2, c) by {
        assert(a.colcount@[c] == fill::column_count(s, c));
        lemma_holders_update(s, s2, c, -1, s.rows.len() as int);
    }
}

/// One row of the pivot step: takes the multiple of row `r` from row `t` that clears
/// its entry in column `c`.
fn clear_row(
    st: &mut RowStore,
    work: &mut Work,
    t: usize,
    r: usize,
    c: u32,
    tk: usize,
    winv: u64,
    mont: &Mont,
    max_entries: usize,
    pivots_done: usize,
    n: usize,
    Ghost(st0): Ghost<RowStore>,
    Ghost(active0): Ghost<Seq<bool>>,
    Ghost(fs): Ghost<Seq<int>>,
    Ghost(done): Ghost<Seq<int>>,
) -> (res: Result<Ghost<Seq<int>>, NullspaceError>)
    requires
        mont.wf(),
        winv < mont.p,
        n <= u32::MAX,
        c < n,
        old(st).wf(n as int, mont.p as int),
        st0.wf(n as int, mont.p as int),
        old(st).live_entries <= max_entries,
        old(work).fits(old(st).cols@.len() as int, n as int),
        r < old(st).cols@.len(),
        t < old(st).cols@.len(),
        t != r,
        old(work).active@[t as int],
        tk < old(st).cols@[t as int]@.len(),
        old(st).cols@[t as int]@[tk as int] == c,
        kept(&st0, old(st), active0, old(work).active@, r as int),
        queued(old(st), old(work).active@, &old(work).heap, r as int),
        done.len() == pivots_done,
        old(work).counts.count(stage(old(st), old(work), done, n as int)),
        nt::is_prime(mont.p as int) ==> {
            &&& nt::cong(winv * st0.rows(n as int)[r as int][c as int], 1, mont.p as int)
            &&& adjacent_but(
                old(st),
                old(work).active@,
                old(work).col_rows@,
                r as int,
                c as int,
            )
            &&& reduced_by(&st0, old(st), r as int, c as int, fs, n as int, mont.p as int)
        },
    ensures
        res matches Err(e) ==> super::is_fill_refusal(e, max_entries) && old(st).cols@.len() * n
            > max_entries,
        nt::is_prime(mont.p as int) ==> {
            let step = fill::clear_row(
                stage(old(st), old(work), done, n as int),
                true,
                r as int,
                c as int,
                t as int,
                mont.p as int,
                max_entries as int,
            );
            match res {
                Err(e) => super::refuses(step, e, 1, max_entries),
                Ok(_) => step == fill::Outcome::Going(stage(final(st), final(work), done, n as int)),
            }
        },
        res matches Ok(fs2) ==> {
            &&& final(st).wf(n as int, mont.p as int)
            &&& final(st).live_entries <= max_entries
            &&& final(work).fits(final(st).cols@.len() as int, n as int)
            &&& kept(&st0, final(st), active0, final(work).active@, r as int)
            &&& queued(final(st), final(work).active@, &final(work).heap, r as int)
            &&& final(work).counts.count(stage(final(st), final(work), done, n as int))
            &&& forall|s: int|
                0 <= s < old(st).cols@.len() && s != t ==> #[trigger] final(st).rows(n as int)[s]
                    == old(st).rows(n as int)[s]
            &&& nt::is_prime(mont.p as int) ==> {
                &&& final(st).rows(n as int)[t as int][c as int] == 0
                &&& adjacent_but(
                    final(st),
                    final(work).active@,
                    final(work).col_rows@,
                    r as int,
                    c as int,
                )
                &&& reduced_by(
                    &st0,
                    final(st),
                    r as int,
                    c as int,
                    fs2@,
                    n as int,
                    mont.p as int,
                )
            }
        },
{
    let p: u64 = mont.p;
    let ghost q: int = p as int;
    let ghost nn: int = n as int;
    let ghost st1 = *st;
    let ghost work1 = *work;
    let ghost s1 = stage(&st1, &work1, done, nn);
    let m: usize = st.cols.len();
    proof {
        fill::lemma_live(&*st, nn, q);
        assert(st.row_wf(t as int, nn, q));
        assert(st.row_wf(r as int, nn, q));
        assert(st0.row_wf(r as int, nn, q));
    }
    let x: u64 = st.vals[t][tk];
    let f: u64 = mulmod(x, winv, p);
    let mut added: Vec<u32> = Vec::new();
    let (nc, nv): (Vec<u32>, Vec<u64>) = axpy_merge(
        &st.cols[t],
        &st.vals[t],
        &st.cols[r],
        &st.vals[r],
        f,
        mont,
        &mut added,
        Ghost(nn),
    );
    let ghost nc0 = nc@;
    let ghost nv0 = nv@;
    let ghost new: Seq<int> = profile::expand(nc0, nv0, nn);
    proof {
        store::lemma_total_update(st.cols@, t as int, nc);
        profile::lemma_coef_listed(st.cols@[t as int]@, st.vals@[t as int]@, tk as int);
        assert(0 < st.vals@[t as int]@[tk as int]);
        assert(s1.rows[t as int][c as int] == x);
        fill::lemma_live_update(s1.rows, t as int, new);
        fill::lemma_entries(nc0, nv0, nn, q);
        assert(entries_are(&st1, nn));
        if nt::is_prime(q) {
            assert(st1.cols@[r as int] == st0.cols@[r as int]);
            assert(st1.vals@[r as int] == st0.vals@[r as int]);
            lemma_row_cleared(&st1, t as int, r as int, c as int, winv as int, nc0, nv0, nn, q);
        }
    }
    let rest: usize = st.live_entries - st.cols[t].len();
    let room: usize = max_entries - rest;
    if nc.len() > room {
        proof {
            let big: Seq<Vec<u32>> = st.cols@.update(t as int, nc);
            assert forall|i: int| 0 <= i < big.len() implies (#[trigger] big[i])@.len() <= nn by {
                if i == t {
                    store::lemma_row_len(nc@, nn);
                } else {
                    assert(st.row_wf(i, nn, q));
                    store::lemma_row_len(st.cols@[i]@, nn);
                }
            }
            store::lemma_total_bound(big, nn);
        }
        return Err(
            NullspaceError::FillBudget {
                live_entries: rest.saturating_add(nc.len()),
                max_entries,
                pivots_done,
                phase: 1,
            },
        );
    }
    let len: usize = nc.len();
    proof {
        assert forall|k: int| 0 <= k < st.cols@[t as int]@.len() implies #[trigger] st.cols@[t as int]@[k]
            < nn && work.counts.colcount@[st.cols@[t as int]@[k] as int] > 0 by {
            let d: int = st.cols@[t as int]@[k] as int;
            profile::lemma_coef_listed(st.cols@[t as int]@, st.vals@[t as int]@, k);
            assert(0 < st.vals@[t as int]@[k]);
            assert(s1.rows[t as int][d] != 0);
            lemma_holders_update(s1, s1, d, t as int, m as int);
            assert(work.counts.colcount@[d] == fill::column_count(s1, d));
        }
    }
    work.counts.row_out(&st.cols[t]);
    proof {
        assert forall|k: int| 0 <= k < nc@.len() implies #[trigger] nc@[k] < nn
            && work.counts.colcount@[nc@[k] as int] < usize::MAX by {
            let d: int = nc@[k] as int;
            lemma_holders_update(s1, s1, d, t as int, m as int);
            profile::lemma_coef_nonzero(st.cols@[t as int]@, st.vals@[t as int]@, nn, q, d);
            assert(work1.counts.colcount@[d] == fill::column_count(s1, d));
        }
    }
    work.counts.row_in(&nc);
    list_row(&mut work.col_rows, &added, t, n, st.cols.len());
    st.replace(t, nc, nv, Ghost(nn), Ghost(q));
    if len == 0 {
        work.active.set(t, false);
        proof {
            lemma_active_update(work1.active@, t as int, m as int);
        }
        work.counts.active_rows = work.counts.active_rows - 1;
    } else {
        work.heap.push((len, t));
    }
    let ghost fs2: Seq<int> = fs.update(t as int, f as int);
    proof {
        let out: Seq<int> = new;
        let s2: fill::Stage = stage(&*st, &*work, done, nn);
        lemma_listing(
            work1.col_rows@,
            work.col_rows@,
            added@,
            st1.cols@[t as int]@,
            st1.vals@[t as int]@,
            nc0,
            nv0,
            t,
            nn,
            q,
        );
        assert(s2.held == fill::listing(s1.held, s1.rows[t as int], new, t as int));
        assert(s2.rows == s1.rows.update(t as int, new));
        assert(s2.active =~= if fill::entries(new) == 0 {
            s1.active.update(t as int, false)
        } else {
            s1.active
        });
        if len == 0 {
            assert forall|d: int| 0 <= d < nn implies #[trigger] s2.rows[t as int][d] == 0 by {
                store::lemma_coef_absent(nc0, nv0, d);
            }
        }
        assert forall|d: int| 0 <= d < nn implies #[trigger] work.counts.colcount@[d]
            == work1.counts.colcount@[d] - counts_in(s1, t as int, d) + counts_in(
            s2,
            t as int,
            d,
        ) by {
            if len == 0 {
                assert(s2.rows[t as int][d] == 0);
            }
            profile::lemma_coef_nonzero(st1.cols@[t as int]@, st1.vals@[t as int]@, nn, q, d);
            profile::lemma_coef_nonzero(nc0, nv0, nn, q, d);
        }
        lemma_recount(s1, s2, work1.counts, work.counts, t as int);
        assert(st.rows(nn)[t as int] == out);
        assert forall|s: int| 0 <= s < st1.cols@.len() && s != t implies #[trigger] st.rows(nn)[s]
            == st1.rows(nn)[s] by {}
        // The queue.
        assert forall|s: int|
            0 <= s < st.cols@.len() && #[trigger] work.active@[s] && s != r && st.cols@[s]@.len()
                > 0 implies work.heap.holds((st.cols@[s]@.len() as usize, s as usize)) by {
            if s == t {
                assert(len > 0);
            } else {
                assert(work1.active@[s]);
                assert(st.cols@[s] == st1.cols@[s]);
                assert(work1.heap.holds((st1.cols@[s]@.len() as usize, s as usize)));
            }
        }
        if nt::is_prime(q) {
            let y: int = st0.rows(nn)[r as int][c as int];
            // Row r is the row that st0 has.
            assert(st1.cols@[r as int] == st0.cols@[r as int]);
            assert(st1.vals@[r as int] == st0.vals@[r as int]);
            profile::lemma_coef_listed(st1.cols@[t as int]@, st1.vals@[t as int]@, tk as int);
            lemma_merge_clears(x as int, y, winv as int, q);
            assert(profile::coef(nc0, nv0, c as int) == store::merged(
                st1.cols@[t as int]@,
                st1.vals@[t as int]@,
                st1.cols@[r as int]@,
                st1.vals@[r as int]@,
                f as int,
                q,
                c as int,
            ));
            assert(out[c as int] == 0);
            // The target still held its entry, so it was unchanged so far.
            assert(st1.rows(nn)[t as int][c as int] == x);
            assert(0 < st1.vals@[t as int]@[tk as int]);
            assert(st1.rows(nn)[t as int] == st0.rows(nn)[t as int]);
            store::lemma_merge_is_axpy(
                st1.cols@[t as int]@,
                st1.vals@[t as int]@,
                st1.cols@[r as int]@,
                st1.vals@[r as int]@,
                nc0,
                nv0,
                f as int,
                nn,
                q,
            );
            assert(linalg::is_axpy(
                st.rows(nn)[t as int],
                st0.rows(nn)[t as int],
                st0.rows(nn)[r as int],
                f as int,
                q,
            ));
            assert forall|s: int| 0 <= s < st0.cols@.len() && s != r implies linalg::is_axpy(
                #[trigger] st.rows(nn)[s],
                st0.rows(nn)[s],
                st0.rows(nn)[r as int],
                fs2[s],
                q,
            ) by {
                if s != t {
                    assert(linalg::is_axpy(
                        st1.rows(nn)[s],
                        st0.rows(nn)[s],
                        st0.rows(nn)[r as int],
                        fs[s],
                        q,
                    ));
                }
            }
            assert forall|s: int| 0 <= s < st0.cols@.len() && s != r implies #[trigger] st.rows(nn)[s]
                == st0.rows(nn)[s] || st.rows(nn)[s][c as int] == 0 by {
                if s != t {
                    assert(st1.rows(nn)[s] == st0.rows(nn)[s] || st1.rows(nn)[s][c as int] == 0);
                }
            }
            // The lists.
            assert forall|s: int, k: int|
                0 <= s < st.cols@.len() && work.active@[s] && s != r && 0 <= k < st.cols@[s]@.len()
                    && st.cols@[s]@[k] != c implies lists(
                work.col_rows@[#[trigger] st.cols@[s]@[k] as int]@,
                s,
            ) by {
                let d: int = st.cols@[s]@[k] as int;
                assert(st.row_wf(s, nn, q));
                assert(st.cols@[s]@[k] < nn);
                if s == t {
                    assert(st.cols@[s]@ == nc0);
                    assert(profile::is_pivot(st1.cols@[t as int]@, nc0[k] as int)
                        || added@.contains(nc0[k]));
                    if profile::is_pivot(st1.cols@[t as int]@, nc0[k] as int) {
                        let j: int = choose|j: int|
                            0 <= j < st1.cols@[t as int]@.len()
                                && #[trigger] st1.cols@[t as int]@[j] == nc0[k] as int;
                        assert(lists(work1.col_rows@[st1.cols@[t as int]@[j] as int]@, t as int));
                        assert(lists(work.col_rows@[d]@, s));
                    } else {
                        let j: int = choose|j: int| 0 <= j < added@.len() && added@[j] == nc0[k];
                        assert(lists(work.col_rows@[added@[j] as int]@, t as int));
                    }
                } else {
                    assert(st.cols@[s] == st1.cols@[s]);
                    assert(work1.active@[s]);
                    assert(lists(work1.col_rows@[st1.cols@[s]@[k] as int]@, s));
                    assert(lists(work.col_rows@[d]@, s));
                }
            }
        }
    }
    Ok(Ghost(fs2))
}

/// Clears column `c` in every active row but `r` that holds it.
fn clear_column(
    st: &mut RowStore,
    work: &mut Work,
    holders: &Vec<usize>,
    r: usize,
    c: u32,
    winv: u64,
    mont: &Mont,
    max_entries: usize,
    pivots_done: usize,
    n: usize,
    Ghost(done): Ghost<Seq<int>>,
) -> (res: Result<Ghost<Seq<int>>, NullspaceError>)
    requires
        mont.wf(),
        winv < mont.p,
        n <= u32::MAX,
        c < n,
        old(st).wf(n as int, mont.p as int),
        old(st).live_entries <= max_entries,
        old(work).fits(old(st).cols@.len() as int, n as int),
        r < old(st).cols@.len(),
        old(work).active@[r as int],
        forall|k: int| 0 <= k < holders@.len() ==> #[trigger] holders@[k] < old(st).cols@.len(),
        queued(old(st), old(work).active@, &old(work).heap, r as int),
        done.len() == pivots_done,
        old(work).counts.count(stage(old(st), old(work), done, n as int)),
        nt::is_prime(mont.p as int) ==> {
            &&& nt::cong(winv * old(st).rows(n as int)[r as int][c as int], 1, mont.p as int)
            &&& adjacent_but(
                old(st),
                old(work).active@,
                old(work).col_rows@,
                r as int,
                c as int,
            )
        },
    ensures
        res matches Err(e) ==> super::is_fill_refusal(e, max_entries) && old(st).cols@.len() * n
            > max_entries,
        nt::is_prime(mont.p as int) ==> {
            let step = fill::clear_rows(
                stage(old(st), old(work), done, n as int),
                true,
                r as int,
                c as int,
                state::ints(holders@),
                holders@.len() as int,
                mont.p as int,
                max_entries as int,
            );
            match res {
                Err(e) => super::refuses(step, e, 1, max_entries),
                Ok(_) => step == fill::Outcome::Going(stage(final(st), final(work), done, n as int)),
            }
        },
        res matches Ok(fs) ==> {
            &&& final(st).wf(n as int, mont.p as int)
            &&& final(st).live_entries <= max_entries
            &&& final(work).fits(final(st).cols@.len() as int, n as int)
            &&& kept(old(st), final(st), old(work).active@, final(work).active@, r as int)
            &&& queued(final(st), final(work).active@, &final(work).heap, r as int)
            &&& final(work).counts.count(stage(final(st), final(work), done, n as int))
            &&& nt::is_prime(mont.p as int) ==> {
                &&& adjacent_but(
                    final(st),
                    final(work).active@,
                    final(work).col_rows@,
                    r as int,
                    c as int,
                )
                &&& reduced_by(
                    old(st),
                    final(st),
                    r as int,
                    c as int,
                    fs@,
                    n as int,
                    mont.p as int,
                )
                &&& forall|k: int|
                    0 <= k < holders@.len() && #[trigger] holders@[k] != r
                        && old(work).active@[holders@[k] as int] ==> final(st).rows(
                        n as int,
                    )[holders@[k] as int][c as int] == 0
            }
        },
{
    let ghost q: int = mont.p as int;
    let ghost nn: int = n as int;
    let ghost st0 = *st;
    let ghost active0 = work.active@;
    let ghost s0 = stage(&*st, &*work, done, nn);
    let ghost hs: Seq<int> = state::ints(holders@);
    let ghost mut fs: Seq<int> = Seq::new(st0.cols@.len(), |t: int| 0int);
    proof {
        if nt::is_prime(q) {
            assert forall|t: int| 0 <= t < st0.cols@.len() && t != r implies linalg::is_axpy(
                #[trigger] st.rows(nn)[t],
                st0.rows(nn)[t],
                st0.rows(nn)[r as int],
                fs[t],
                q,
            ) by {
                assert forall|j: int| 0 <= j < nn implies nt::cong(
                    #[trigger] st.rows(nn)[t][j],
                    st0.rows(nn)[t][j] - 0 * st0.rows(nn)[r as int][j],
                    q,
                ) by {
                    assert(0 * st0.rows(nn)[r as int][j] == 0) by (nonlinear_arith);
                    nt::cong_refl(st0.rows(nn)[t][j], q);
                }
            }
        }
    }
    let mut j: usize = 0;
    while j < holders.len()
        invariant
            j <= holders@.len(),
            mont.wf(),
            q == mont.p as int,
            nn == n as int,
            winv < mont.p,
            n <= u32::MAX,
            c < n,
            st0 == *old(st),
            active0 == old(work).active@,
            st0.wf(nn, q),
            st.wf(nn, q),
            st.live_entries <= max_entries,
            work.fits(st.cols@.len() as int, nn),
            r < st0.cols@.len(),
            forall|k: int| 0 <= k < holders@.len() ==> #[trigger] holders@[k] < st0.cols@.len(),
            kept(&st0, &*st, active0, work.active@, r as int),
            queued(&*st, work.active@, &work.heap, r as int),
            done.len() == pivots_done,
            work.counts.count(stage(&*st, &*work, done, nn)),
            s0 == stage(old(st), old(work), done, nn),
            hs == state::ints(holders@),
            nt::is_prime(q) ==> {
                &&& fill::clear_rows(
                    s0,
                    true,
                    r as int,
                    c as int,
                    hs,
                    j as int,
                    q,
                    max_entries as int,
                ) == fill::Outcome::Going(stage(&*st, &*work, done, nn))
                &&& nt::cong(winv * st0.rows(nn)[r as int][c as int], 1, q)
                &&& adjacent_but(&*st, work.active@, work.col_rows@, r as int, c as int)
                &&& reduced_by(&st0, &*st, r as int, c as int, fs, nn, q)
                &&& forall|k: int|
                    0 <= k < j && #[trigger] holders@[k] != r && active0[holders@[k] as int]
                        ==> st.rows(nn)[holders@[k] as int][c as int] == 0
            },
        decreases holders@.len() - j,
    {
        let t: usize = holders[j];
        let ghost st1 = *st;
        assert(holders@[j as int] < st0.cols@.len());
        if t != r && work.active[t] {
            match st.contains(t, c, Ghost(nn), Ghost(q)) {
                None => {},
                Some(tk) => {
                    match clear_row(
                        st,
                        work,
                        t,
                        r,
                        c,
                        tk,
                        winv,
                        mont,
                        max_entries,
                        pivots_done,
                        n,
                        Ghost(st0),
                        Ghost(active0),
                        Ghost(fs),
                        Ghost(done),
                    ) {
                        Err(e) => {
                            proof {
                                if nt::is_prime(q) {
                                    fill::lemma_over_stays(
                                        s0,
                                        true,
                                        r as int,
                                        c as int,
                                        hs,
                                        j + 1,
                                        hs.len() as int,
                                        q,
                                        max_entries as int,
                                    );
                                }
                            }
                            return Err(e);
                        },
                        Ok(fs2) => {
                            proof {
                                fs = fs2@;
                            }
                        },
                    }
                },
            }
        } else {
            proof {
                if t != r && active0[t as int] {
                    assert(st.cols@[t as int]@.len() == 0);
                    assert(profile::coef(st.cols@[t as int]@, st.vals@[t as int]@, c as int) == 0);
                }
            }
        }
        proof {
            if nt::is_prime(q) {
                assert forall|k: int|
                    0 <= k < j + 1 && #[trigger] holders@[k] != r && active0[holders@[k] as int] implies st.rows(
                    nn,
                )[holders@[k] as int][c as int] == 0 by {
                    let s: int = holders@[k] as int;
                    if s != t {
                        assert(st1.rows(nn)[s][c as int] == 0);
                        assert(st.rows(nn)[s] == st1.rows(nn)[s]);
                    }
                }
            }
        }
        j += 1;
    }
    Ok(Ghost(fs))
}

/// The sparsest active row with entries, off the queue.
fn next_pivot(st: &RowStore, active: &Vec<bool>, heap: &mut MinHeap) -> (res: Option<usize>)
    requires
        old(heap).wf(),
        active@.len() == st.cols@.len(),
        queued(st, active@, old(heap), -1),
    ensures
        final(heap).wf(),
        res matches Some(r) ==> r < st.cols@.len() && active@[r as int]
            && st.cols@[r as int]@.len() > 0 && queued(st, active@, final(heap), r as int)
            && forall|t: int|
            0 <= t < st.cols@.len() && #[trigger] active@[t] && st.cols@[t]@.len() > 0
                ==> heap::pair_le(
                (st.cols@[r as int]@.len() as usize, r),
                (st.cols@[t]@.len() as usize, t as usize),
            ),
        res is None ==> forall|t: int|
            0 <= t < st.cols@.len() && #[trigger] active@[t] ==> st.cols@[t]@.len() == 0,
{
    loop
        invariant
            heap.wf(),
            active@.len() == st.cols@.len(),
            queued(st, active@, &*heap, -1),
        decreases heap.items().len(),
    {
        let ghost before = *heap;
        match heap.pop() {
            None => {
                proof {
                    assert forall|t: int|
                        0 <= t < st.cols@.len()
                            && #[trigger] active@[t] implies st.cols@[t]@.len() == 0 by {
                        if st.cols@[t]@.len() > 0 {
                            assert(before.holds((st.cols@[t]@.len() as usize, t as usize)));
                        }
                    }
                }
                return None;
            },
            Some(top) => {
                let (len, r): (usize, usize) = top;
                if r < st.cols.len() && active[r] && st.nnz(r) == len && len > 0 {
                    proof {
                        assert forall|t: int|
                            0 <= t < st.cols@.len() && #[trigger] active@[t] && t != r
                                && st.cols@[t]@.len() > 0 implies heap.holds(
                            (st.cols@[t]@.len() as usize, t as usize),
                        ) by {
                            assert(before.holds((st.cols@[t]@.len() as usize, t as usize)));
                        }
                        assert forall|t: int|
                            0 <= t < st.cols@.len() && #[trigger] active@[t] && st.cols@[t]@.len()
                                > 0 implies heap::pair_le(
                            (st.cols@[r as int]@.len() as usize, r),
                            (st.cols@[t]@.len() as usize, t as usize),
                        ) by {
                            assert(before.holds((st.cols@[t]@.len() as usize, t as usize)));
                        }
                    }
                    return Some(r);
                }
                proof {
                    assert forall|t: int|
                        0 <= t < st.cols@.len() && #[trigger] active@[t] && t != -1
                            && st.cols@[t]@.len() > 0 implies heap.holds(
                        (st.cols@[t]@.len() as usize, t as usize),
                    ) by {
                        assert(before.holds((st.cols@[t]@.len() as usize, t as usize)));
                    }
                }
            },
        }
    }
}

/// A pivot step takes the reduction one pivot further.
proof fn lemma_progress_step(
    st0: &RowStore,
    st: &RowStore,
    org: Seq<Seq<int>>,
    active0: Seq<bool>,
    active: Seq<bool>,
    done: Seq<usize>,
    piv: Seq<int>,
    r: usize,
    c: int,
    fs: Seq<int>,
    n: int,
    p: int,
)
    requires
        p > 1,
        n >= 0,
        0 <= c < n,
        st0.wf(n, p),
        st.wf(n, p),
        org.len() == st0.cols@.len(),
        linalg::shaped(org, n),
        state::shape(st0, active0, done),
        state::progress(st0, org, done, piv, n, p),
        kept(st0, st, active0, active, r as int),
        reduced_by(st0, st, r as int, c, fs, n, p),
        r < st0.cols@.len(),
        st0.rows(n)[r as int][c] != 0,
        forall|t: int|
            0 <= t < st0.cols@.len() && t != r && active0[t] ==> #[trigger] st.rows(n)[t][c] == 0,
    ensures
        state::progress(st, org, done.push(r), piv.push(c), n, p),
{
    let cur: Seq<Seq<int>> = st0.rows(n);
    let nxt: Seq<Seq<int>> = st.rows(n);
    let d0: Seq<int> = state::ints(done);
    let d1: Seq<int> = state::ints(done.push(r));
    let piv1: Seq<int> = piv.push(c);
    assert(d1 =~= d0.push(r as int));
    assert(active0[r as int]);
    assert(!d0.contains(r as int)) by {
        if d0.contains(r as int) {
            let k: int = choose|k: int| 0 <= k < d0.len() && d0[k] == r;
            assert(!active0[done[k] as int]);
        }
    }
    assert forall|k: int| 0 <= k < d0.len() implies 0 <= #[trigger] d0[k] < cur.len() by {
        assert(done[k] < st0.cols@.len());
    }
    assert(nxt[r as int] == cur[r as int]) by {
        assert(st.cols@[r as int] == st0.cols@[r as int]);
        assert(st.vals@[r as int] == st0.vals@[r as int]);
    }
    assert(linalg::is_scaled(nxt[r as int], cur[r as int], 1, p)) by {
        assert forall|j: int| 0 <= j < n implies nt::cong(
            #[trigger] nxt[r as int][j],
            1 * cur[r as int][j],
            p,
        ) by {
            nt::cong_refl(cur[r as int][j], p);
        }
    }
    nt::cong_refl(1, p);
    assert(1 * 1 == 1int);
    linalg::lemma_elimination_step(cur, nxt, org, d0, r as int, 1, 1, fs, n, p);
    // Rows that are retired or were not active are unchanged.
    assert forall|t: int| 0 <= t < cur.len() && !active0[t] implies #[trigger] nxt[t] == cur[t] by {
        assert(st.cols@[t] == st0.cols@[t]);
        assert(st.vals@[t] == st0.vals@[t]);
    }
    // No row that is not retired holds an old pivot column.
    assert forall|t: int, i: int|
        0 <= t < cur.len() && !d0.contains(t) && 0 <= i < piv.len() implies #[trigger] nxt[t][piv[i]]
        == 0 by {
        assert(cur[t][piv[i]] == 0);
        assert(0 <= piv[i] < n);
        if t != r {
            assert(linalg::is_axpy(nxt[t], cur[t], cur[r as int], fs[t], p));
            assert(cur[r as int][piv[i]] == 0);
            assert(nt::cong(nxt[t][piv[i]], cur[t][piv[i]] - fs[t] * cur[r as int][piv[i]], p));
            assert(fs[t] * 0 == 0) by (nonlinear_arith);
            assert(st.row_wf(t, n, p));
            profile::lemma_coef_range(st.cols@[t]@, st.vals@[t]@, n, p, piv[i]);
            nt::cong_small(nxt[t][piv[i]], 0, p);
        }
    }
    assert(rowspace::triangular(nxt, d1, piv1, n, p)) by {
        assert forall|i: int| 0 <= i < d1.len() implies 0 < #[trigger] nxt[d1[i]][piv1[i]] < p by {
            if i < d0.len() {
                assert(d1[i] == d0[i] && piv1[i] == piv[i]);
                assert(!active0[done[i] as int]);
                assert(nxt[d0[i]] == cur[d0[i]]);
                assert(0 < cur[d0[i]][piv[i]] < p);
            } else {
                assert(st0.row_wf(r as int, n, p));
                profile::lemma_coef_range(st0.cols@[r as int]@, st0.vals@[r as int]@, n, p, c);
                assert(nxt[r as int][c] == cur[r as int][c]);
            }
        }
        assert forall|i: int, j: int| 0 <= i < j < d1.len() implies #[trigger] nxt[d1[j]][piv1[i]]
            == 0 by {
            assert(piv1[i] == piv[i]);
            if j < d0.len() {
                assert(d1[j] == d0[j]);
                assert(!active0[done[j] as int]);
                assert(nxt[d0[j]] == cur[d0[j]]);
                assert(cur[d0[j]][piv[i]] == 0);
            } else {
                assert(nxt[r as int][piv[i]] == 0);
            }
        }
        assert forall|i: int| 0 <= i < piv1.len() implies 0 <= #[trigger] piv1[i] < n by {
            if i < piv.len() {
                assert(piv1[i] == piv[i]);
            }
        }
    }
    assert forall|t: int, i: int|
        0 <= t < st.cols@.len() && !d1.contains(t) && 0 <= i < piv1.len() implies
    #[trigger] st.rows(n)[t][piv1[i]] == 0 by {
        assert(d1[d0.len() as int] == r);
        assert(t != r);
        assert(!d0.contains(t)) by {
            if d0.contains(t) {
                let k: int = choose|k: int| 0 <= k < d0.len() && d0[k] == t;
                assert(d1[k] == t);
            }
        }
        if i < piv.len() {
            assert(piv1[i] == piv[i]);
            assert(nxt[t][piv[i]] == 0);
        } else if active0[t] {
            assert(nxt[t][c] == 0);
        } else {
            assert(st0.cols@[t]@.len() == 0);
            assert(st.cols@[t] == st0.cols@[t]);
            assert(profile::coef(st.cols@[t]@, st.vals@[t]@, c) == 0);
        }
    }
}

/// At most `m` distinct rows can be retired.
proof fn lemma_retired_bound(done: Seq<usize>, m: int)
    requires
        m >= 0,
        done.no_duplicates(),
        forall|k: int| 0 <= k < done.len() ==> #[trigger] done[k] < m,
    ensures
        done.len() <= m,
{
    let d: Seq<int> = state::ints(done);
    assert(d.no_duplicates()) by {
        assert forall|i: int, j: int| 0 <= i < d.len() && 0 <= j < d.len() && i != j implies d[i]
            != d[j] by {
            assert(done[i] != done[j]);
        }
    }
    d.unique_seq_to_set();
    let all: Set<int> = vstd::set_lib::set_int_range(0, m);
    vstd::set_lib::lemma_int_range(0, m);
    assert(d.to_set().subset_of(all)) by {
        assert forall|x: int| d.to_set().contains(x) implies all.contains(x) by {
            let k: int = choose|k: int| 0 <= k < d.len() && d[k] == x;
            assert(done[k] < m);
        }
    }
    vstd::set_lib::lemma_len_subset(d.to_set(), all);
}

/// Zero counts are not positive.
proof fn lemma_no_counts(cc: Seq<usize>, k: int)
    requires
        0 <= k <= cc.len(),
        forall|c: int| 0 <= c < cc.len() ==> #[trigger] cc[c] == 0,
    ensures
        positive_upto(cc, k) == 0,
    decreases k,
{
    if k > 0 {
        lemma_no_counts(cc, k - 1);
        assert(cc[k - 1] == 0);
    }
}

/// Where every row is active, all are counted.
proof fn lemma_all_active(active: Seq<bool>, k: int)
    requires
        0 <= k <= active.len(),
        forall|t: int| 0 <= t < active.len() ==> #[trigger] active[t],
    ensures
        fill::active_rows(active, k).len() == k,
    decreases k,
{
    if k > 0 {
        lemma_all_active(active, k - 1);
        assert(active[k - 1]);
    }
}

/// As many columns are used as have a positive count.
proof fn lemma_used_len(s: fill::Stage, cc: Seq<usize>, c: int)
    requires
        0 <= c <= cc.len(),
        forall|d: int| 0 <= d < cc.len() ==> #[trigger] cc[d] == fill::column_count(s, d),
    ensures
        fill::used_columns(s, c).len() == positive_upto(cc, c),
    decreases c,
{
    if c > 0 {
        lemma_used_len(s, cc, c - 1);
        assert(cc[c - 1] == fill::column_count(s, c - 1));
    }
}

/// The working state at the start: every row is active, listed and queued.
fn start_work(st: &RowStore, n: usize, Ghost(p): Ghost<int>) -> (work: Work)
    requires
        st.wf(n as int, p),
    ensures
        work.fits(st.cols@.len() as int, n as int),
        forall|t: int| 0 <= t < st.cols@.len() ==> #[trigger] work.active@[t],
        adjacent(st, work.active@, work.col_rows@),
        queued(st, work.active@, &work.heap, -1),
        stage(st, &work, Seq::empty(), n as int) == fill::start(
            st.rows(n as int),
            fill::all_rows(st.cols@.len() as int),
            n as int,
        ),
        work.counts.count(stage(st, &work, Seq::empty(), n as int)),
{
    let m: usize = st.cols.len();
    let ghost rows = st.rows(n as int);
    let ghost sel = fill::all_rows(m as int);
    let ghost s0 = fill::start(rows, sel, n as int);
    let mut col_rows: Vec<Vec<usize>> = Vec::new();
    let mut c: usize = 0;
    while c < n
        invariant
            c <= n,
            col_rows@.len() == c,
            names_rows(col_rows@, m as int),
            forall|d: int| 0 <= d < c ==> (#[trigger] col_rows@[d])@.len() == 0,
        decreases n - c,
    {
        let ghost before = col_rows@;
        col_rows.push(Vec::new());
        assert(names_rows(col_rows@, m as int)) by {
            assert forall|d: int, k: int|
                0 <= d < col_rows@.len() && 0 <= k < col_rows@[d]@.len() implies
            #[trigger] col_rows@[d]@[k] < m by {
                assert(col_rows@[d]@[k] == before[d]@[k]);
            }
        }
        c += 1;
    }
    let mut counts: Counts = Counts { colcount: vec![0usize; n], active_cols: 0, active_rows: m };
    proof {
        lemma_no_counts(counts.colcount@, n as int);
        assert forall|d: int| 0 <= d < n implies state::ints((#[trigger] col_rows@[d])@)
            == fill::holding(rows, sel, d, 0) by {
            assert(state::ints(col_rows@[d]@) =~= Seq::<int>::empty());
        }
    }
    let mut heap: MinHeap = MinHeap::new();
    let mut active: Vec<bool> = Vec::new();
    let mut r: usize = 0;
    while r < m
        invariant
            r <= m,
            m == st.cols@.len(),
            st.wf(n as int, p),
            col_rows@.len() == n,
            names_rows(col_rows@, m as int),
            counts.colcount@.len() == n,
            counts.wf(),
            counts.active_rows == m,
            rows == st.rows(n as int),
            sel == fill::all_rows(m as int),
            s0 == fill::start(rows, sel, n as int),
            forall|d: int| 0 <= d < n ==> #[trigger] counts.colcount@[d] == fill::holders(
                s0,
                d,
                r as int,
            ),
            forall|d: int|
                0 <= d < n ==> state::ints((#[trigger] col_rows@[d])@) == fill::holding(
                    rows,
                    sel,
                    d,
                    r as int,
                ),
            heap.wf(),
            active@.len() == r,
            forall|t: int| 0 <= t < r ==> #[trigger] active@[t],
            forall|t: int, k: int|
                0 <= t < r && 0 <= k < st.cols@[t]@.len() ==> lists(
                    col_rows@[#[trigger] st.cols@[t]@[k] as int]@,
                    t,
                ),
            forall|t: int|
                0 <= t < r ==> heap.holds(
                    ((#[trigger] st.cols@[t])@.len() as usize, t as usize),
                ),
        decreases m - r,
    {
        let ghost lists1 = col_rows@;
        let ghost counts1 = counts;
        proof {
            assert(st.row_wf(r as int, n as int, p));
            assert forall|k: int| 0 <= k < st.cols@[r as int]@.len() implies #[trigger] st.cols@[r as int]@[k]
                < n && counts.colcount@[st.cols@[r as int]@[k] as int] < usize::MAX by {
                let d: int = st.cols@[r as int]@[k] as int;
                lemma_holders_update(s0, s0, d, -1, r as int);
                assert(counts.colcount@[d] == fill::holders(s0, d, r as int));
            }
        }
        counts.row_in(&st.cols[r]);
        list_row(&mut col_rows, &st.cols[r], r, n, m);
        let len: usize = st.nnz(r);
        heap.push((len, r));
        active.push(true);
        proof {
            assert forall|d: int| 0 <= d < n implies #[trigger] counts.colcount@[d]
                == fill::holders(s0, d, r + 1) by {
                assert(counts1.colcount@[d] == fill::holders(s0, d, r as int));
                profile::lemma_coef_nonzero(
                    st.cols@[r as int]@,
                    st.vals@[r as int]@,
                    n as int,
                    p,
                    d,
                );
            }
            assert forall|d: int| 0 <= d < n implies state::ints((#[trigger] col_rows@[d])@)
                == fill::holding(rows, sel, d, r + 1) by {
                assert(state::ints(lists1[d]@) == fill::holding(rows, sel, d, r as int));
                profile::lemma_coef_nonzero(
                    st.cols@[r as int]@,
                    st.vals@[r as int]@,
                    n as int,
                    p,
                    d,
                );
                assert(state::ints(lists1[d]@.push(r)) =~= state::ints(lists1[d]@).push(r as int));
            }
            assert forall|t: int, k: int|
                0 <= t < r + 1 && 0 <= k < st.cols@[t]@.len() implies lists(
                col_rows@[#[trigger] st.cols@[t]@[k] as int]@,
                t,
            ) by {
                assert(st.row_wf(t, n as int, p));
                assert(st.cols@[t]@[k] < n);
                if t < r {
                    assert(lists(lists1[st.cols@[t]@[k] as int]@, t));
                }
            }
        }
        r += 1;
    }
    let work: Work = Work { active, col_rows, counts, heap };
    proof {
        let s: fill::Stage = stage(st, &work, Seq::empty(), n as int);
        assert(s.active =~= s0.active);
        assert(s.held =~= s0.held) by {
            assert forall|d: int| 0 <= d < n implies #[trigger] s.held[d] == s0.held[d] by {
                assert(state::ints(work.col_rows@[d]@) == fill::holding(rows, sel, d, m as int));
            }
        }
        assert(s =~= s0);
        lemma_all_active(s0.active, m as int);
        assert forall|d: int| 0 <= d < n implies #[trigger] work.counts.colcount@[d]
            == fill::column_count(s, d) by {
            assert(counts.colcount@[d] == fill::holders(s0, d, m as int));
        }
    }
    work
}

/// The column that the counts pick is the rarest of its row.
proof fn lemma_rarest(
    st: &RowStore,
    s: fill::Stage,
    counts: &Counts,
    r: int,
    best: int,
    n: int,
    p: int,
)
    requires
        st.wf(n, p),
        s.rows == st.rows(n),
        s.held.len() == n,
        counts.count(s),
        0 <= r < st.cols@.len(),
        0 <= best < st.cols@[r]@.len(),
        forall|k: int|
            0 <= k < st.cols@[r]@.len() ==> counts.colcount@[st.cols@[r]@[best] as int]
                <= counts.colcount@[#[trigger] st.cols@[r]@[k] as int],
        forall|k: int|
            0 <= k < best ==> counts.colcount@[st.cols@[r]@[best] as int]
                < counts.colcount@[#[trigger] st.cols@[r]@[k] as int],
        fill::next_row(s) == r,
    ensures
        fill::is_rarest(s, fill::next_row(s), st.cols@[r]@[best] as int),
{
    let idx: Seq<u32> = st.cols@[r]@;
    let val: Seq<u64> = st.vals@[r]@;
    let c: int = idx[best] as int;
    assert(st.row_wf(r, n, p));
    profile::lemma_coef_listed(idx, val, best);
    assert(0 < val[best]);
    assert(idx[best] < n);
    assert(counts.colcount@[c] == fill::column_count(s, c));
    assert forall|d: int| 0 <= d < s.held.len() && #[trigger] s.rows[r][d] != 0 implies
    fill::column_count(s, c) < fill::column_count(s, d) || (fill::column_count(s, c)
        == fill::column_count(s, d) && c <= d) by {
        profile::lemma_coef_nonzero(idx, val, n, p, d);
        let k: int = choose|k: int| 0 <= k < idx.len() && #[trigger] idx[k] == d;
        assert(counts.colcount@[d] == fill::column_count(s, d));
        assert(counts.colcount@[c] <= counts.colcount@[idx[k] as int]);
        if k < best {
            assert(counts.colcount@[c] < counts.colcount@[idx[k] as int]);
        } else if best < k {
            assert(idx[best] < idx[k]);
        }
    }
}

/// While a row is active, not every row is retired.
proof fn lemma_one_more(done: Seq<usize>, active: Seq<bool>, r: usize, m: int)
    requires
        done.no_duplicates(),
        active.len() == m,
        forall|k: int| 0 <= k < done.len() ==> #[trigger] done[k] < m && !active[done[k] as int],
        r < m,
        active[r as int],
    ensures
        done.len() < m,
{
    let more: Seq<usize> = done.push(r);
    assert forall|i: int, j: int| 0 <= i < more.len() && 0 <= j < more.len() && i != j implies more[i]
        != more[j] by {
        if i < done.len() && j < done.len() {
            assert(done[i] != done[j]);
        } else if i < done.len() {
            assert(!active[done[i] as int]);
        } else {
            assert(!active[done[j] as int]);
        }
    }
    lemma_retired_bound(more, m);
}

/// Free-order row-space reduction. Returns the retired (pivot) rows in retirement
/// order; every other row is empty.
pub fn phase1(
    st: &mut RowStore,
    n: usize,
    mont: &Mont,
    params: &Params,
    Ghost(org): Ghost<Seq<Seq<int>>>,
) -> (res: Result<(Vec<usize>, Ghost<Seq<int>>), NullspaceError>)
    requires
        mont.wf(),
        n <= u32::MAX,
        old(st).wf(n as int, mont.p as int),
        old(st).live_entries <= params.max_entries,
        org.len() == old(st).cols@.len(),
        linalg::shaped(org, n as int),
        forall|t: int, j: int|
            0 <= t < org.len() && 0 <= j < n ==> nt::cong(
                #[trigger] old(st).rows(n as int)[t][j],
                org[t][j],
                mont.p as int,
            ),
    ensures
        res matches Err(e) ==> super::is_fill_refusal(e, params.max_entries)
            && old(st).cols@.len() * n > params.max_entries,
        nt::is_prime(mont.p as int) ==> {
            let end = fill::reduce(
                fill::start(
                    old(st).rows(n as int),
                    fill::all_rows(old(st).cols@.len() as int),
                    n as int,
                ),
                mont.p as int,
                *params,
            );
            match res {
                Err(e) => super::refuses(end, e, 1, params.max_entries),
                Ok((done, _)) => end matches fill::Outcome::Going(s) && s.rows == final(st).rows(
                    n as int,
                ) && s.done == state::ints(done@),
            }
        },
        res matches Ok((done, piv)) ==> {
            &&& final(st).wf(n as int, mont.p as int)
            &&& final(st).cols@.len() == old(st).cols@.len()
            &&& final(st).orig == old(st).orig
            &&& final(st).live_entries <= params.max_entries
            &&& done@.no_duplicates()
            &&& forall|k: int| 0 <= k < done@.len() ==> #[trigger] done@[k] < final(st).cols@.len()
            &&& forall|t: int|
                0 <= t < final(st).cols@.len() && !state::ints(done@).contains(t) ==> (
                #[trigger] final(st).cols@[t])@.len() == 0
            &&& nt::is_prime(mont.p as int) ==> state::progress(
                final(st),
                org,
                done@,
                piv@,
                n as int,
                mont.p as int,
            )
        },
{
    let p: u64 = mont.p;
    let ghost q: int = p as int;
    let ghost nn: int = n as int;
    let m: usize = st.cols.len();
    let mut work: Work = start_work(&*st, n, Ghost(q));
    let mut done: Vec<usize> = Vec::new();
    let ghost mut piv: Seq<int> = Seq::empty();
    let ghost s0 = fill::start(st.rows(nn), fill::all_rows(m as int), nn);
    proof {
        linalg::lemma_elimination_start(st.rows(nn), org, nn, q);
        assert(state::ints(done@) =~= Seq::<int>::empty());
    }
    let mut finished: bool = false;
    while !finished
        invariant
            mont.wf(),
            p == mont.p,
            q == p as int,
            nn == n as int,
            n <= u32::MAX,
            m == old(st).cols@.len(),
            st.cols@.len() == m,
            st.orig == old(st).orig,
            org.len() == m,
            linalg::shaped(org, nn),
            st.wf(nn, q),
            st.live_entries <= params.max_entries,
            work.fits(m as int, nn),
            state::shape(&*st, work.active@, done@),
            !finished ==> queued(&*st, work.active@, &work.heap, -1),
            s0 == fill::start(old(st).rows(nn), fill::all_rows(m as int), nn),
            !finished ==> work.counts.count(stage(&*st, &work, state::ints(done@), nn)),
            nt::is_prime(q) && !finished ==> fill::reduce_upto(
                s0,
                done@.len() as int,
                q,
                *params,
            ) == fill::Outcome::Going(stage(&*st, &work, state::ints(done@), nn)),
            nt::is_prime(q) && finished ==> (fill::reduce(
                s0,
                q,
                *params,
            ) matches fill::Outcome::Going(s) && s.rows == st.rows(nn) && s.done == state::ints(
                done@,
            )),
            finished ==> forall|t: int|
                0 <= t < m && #[trigger] work.active@[t] ==> st.cols@[t]@.len() == 0,
            nt::is_prime(q) ==> {
                &&& state::progress(&*st, org, done@, piv, nn, q)
                &&& !finished ==> adjacent(&*st, work.active@, work.col_rows@)
            },
        decreases
                m - done@.len(),
                if finished {
                    0int
                } else {
                    1int
                },
    {
        let ghost s = stage(&*st, &work, state::ints(done@), nn);
        proof {
            fill::lemma_live(&*st, nn, q);
            lemma_used_len(s, work.counts.colcount@, nn);
            assert forall|k: int| 0 <= k < done@.len() implies #[trigger] done@[k] < m by {}
            lemma_retired_bound(done@, m as int);
        }
        let mut switch: bool = false;
        if work.counts.active_rows > 0 {
            match work.counts.active_rows.checked_mul(work.counts.active_cols) {
                Some(prod) => {
                    let dense_enough: bool = match st.live_entries.checked_mul(
                        params.dense_inv_density,
                    ) {
                        Some(scaled) => scaled >= prod,
                        None => true,
                    };
                    switch = prod <= params.dense_cap && dense_enough && prod <= params.max_entries
                        - st.live_entries;
                },
                None => {},
            }
        }
        assert(switch == fill::core_due(s, *params));
        if switch {
            let plan: CorePlan = plan_core(&*st, &work.active, n, Ghost(q), Ghost(s));
            let piv_found: Ghost<Seq<int>> = dense_core(
                st,
                &mut work.active,
                &mut done,
                &plan,
                n,
                p,
                params.max_entries,
                Ghost(org),
                Ghost(piv),
                Ghost(s),
            );
            finished = true;
            proof {
                piv = piv_found@;
                if nt::is_prime(q) {
                    fill::lemma_settled_stays(s0, s.done.len() as int, m as int, q, *params);
                }
                assert forall|k: int| 0 <= k < done@.len() implies #[trigger] done@[k] < m by {}
                lemma_retired_bound(done@, m as int);
            }
        } else {
            match next_pivot(&*st, &work.active, &mut work.heap) {
                None => {
                    finished = true;
                    proof {
                        if nt::is_prime(q) {
                            assert forall|t: int| !#[trigger] fill::is_candidate(s, t) by {
                                if fill::is_candidate(s, t) {
                                    assert(work.active@[t]);
                                    assert(fill::entries(st.rows(nn)[t]) == st.cols@[t]@.len());
                                }
                            }
                            fill::lemma_settled_stays(
                                s0,
                                s.done.len() as int,
                                m as int,
                                q,
                                *params,
                            );
                        }
                    }
                },
                Some(r) => {
                    assert(st.row_wf(r as int, nn, q));
                    proof {
                        assert(fill::is_sparsest(s, r as int)) by {
                            assert(fill::entries(st.rows(nn)[r as int])
                                == st.cols@[r as int]@.len());
                            assert forall|t: int| #[trigger]
                                fill::is_candidate(s, t) implies fill::entries(s.rows[r as int])
                                < fill::entries(s.rows[t]) || (fill::entries(s.rows[r as int])
                                == fill::entries(s.rows[t]) && r <= t) by {
                                assert(work.active@[t]);
                                assert(fill::entries(st.rows(nn)[t]) == st.cols@[t]@.len());
                                assert(st.row_wf(t, nn, q));
                                store::lemma_row_len(st.cols@[t]@, nn);
                                store::lemma_row_len(st.cols@[r as int]@, nn);
                            }
                        }
                        fill::lemma_next_row(s, r as int);
                    }
                    let best: usize = work.counts.pick_column(&st.cols[r]);
                    let c: u32 = st.cols[r][best];
                    let w: u64 = st.vals[r][best];
                    let winv: u64 = invmod(w, p);
                    proof {
                        lemma_rarest(&*st, s, &work.counts, r as int, best as int, nn, q);
                        fill::lemma_next_column(s, c as int);
                    }
                    let mut holders: Vec<usize> = Vec::new();
                    let ghost lists0 = work.col_rows@;
                    assert(st.cols@[r as int]@[best as int] < nn);
                    std::mem::swap(&mut holders, &mut work.col_rows[c as usize]);
                    let ghost st0 = *st;
                    let ghost work0 = work;
                    let ghost done0 = done@;
                    let ghost piv0 = piv;
                    let ghost s1 = stage(&*st, &work, state::ints(done@), nn);
                    proof {
                        assert(s1.held =~= s.held.update(c as int, Seq::empty())) by {
                            assert(state::ints(work.col_rows@[c as int]@) =~= Seq::<int>::empty());
                        }
                        assert(s1 =~= fill::unlisted(s, c as int));
                        lemma_count_same(s, s1, work.counts);
                        lemma_one_more(done@, work.active@, r, m as int);
                        profile::lemma_coef_listed(
                            st.cols@[r as int]@,
                            st.vals@[r as int]@,
                            best as int,
                        );
                        assert(0 < st.vals@[r as int]@[best as int] < q);
                        assert(st.rows(nn)[r as int][c as int] == w);
                        if nt::cong(w as int, 0, q) {
                            nt::cong_small(w as int, 0, q);
                        }
                        assert(holders@ == lists0[c as int]@);
                        assert forall|k: int| 0 <= k < holders@.len() implies #[trigger] holders@[k]
                            < m by {
                            assert(lists0[c as int]@[k] < m);
                        }
                        assert(names_rows(work.col_rows@, m as int)) by {
                            assert forall|d: int, k: int|
                                0 <= d < work.col_rows@.len() && 0 <= k < work.col_rows@[d]@.len() implies
                            #[trigger] work.col_rows@[d]@[k] < m by {
                                assert(d != c);
                                assert(work.col_rows@[d]@[k] == lists0[d]@[k]);
                            }
                        }
                        if nt::is_prime(q) {
                            assert forall|t: int, k: int|
                                0 <= t < st.cols@.len() && work.active@[t] && t != r && 0 <= k
                                    < st.cols@[t]@.len() && st.cols@[t]@[k] != c implies lists(
                                work.col_rows@[#[trigger] st.cols@[t]@[k] as int]@,
                                t,
                            ) by {
                                assert(st.row_wf(t, nn, q));
                                assert(st.cols@[t]@[k] < nn);
                                assert(lists(lists0[st.cols@[t]@[k] as int]@, t));
                            }
                        }
                    }
                    let pivots_done: usize = done.len();
                    match clear_column(
                        st,
                        &mut work,
                        &holders,
                        r,
                        c,
                        winv,
                        mont,
                        params.max_entries,
                        pivots_done,
                        n,
                        Ghost(state::ints(done@)),
                    ) {
                        Err(e) => {
                            proof {
                                if nt::is_prime(q) {
                                    assert(fill::reduce_upto(s0, (done@.len() + 1) as int, q, *params)
                                        == fill::pivot_step(s, q, params.max_entries as int));
                                    fill::lemma_reduce_over(
                                        s0,
                                        (done@.len() + 1) as int,
                                        m as int,
                                        q,
                                        *params,
                                    );
                                }
                            }
                            return Err(e);
                        },
                        Ok(fs) => {
                            let ghost work1 = work;
                            let ghost s2 = stage(&*st, &work, state::ints(done@), nn);
                            work.active.set(r, false);
                            proof {
                                assert(st.row_wf(r as int, nn, q));
                                lemma_active_update(work1.active@, r as int, m as int);
                                assert forall|k: int| 0 <= k < st.cols@[r as int]@.len() implies
                                #[trigger] st.cols@[r as int]@[k] < nn
                                    && work.counts.colcount@[st.cols@[r as int]@[k] as int] > 0 by {
                                    let d: int = st.cols@[r as int]@[k] as int;
                                    profile::lemma_coef_listed(
                                        st.cols@[r as int]@,
                                        st.vals@[r as int]@,
                                        k,
                                    );
                                    assert(0 < st.vals@[r as int]@[k]);
                                    assert(s2.rows[r as int][d] != 0);
                                    lemma_holders_update(s2, s2, d, r as int, m as int);
                                    assert(work.counts.colcount@[d] == fill::column_count(s2, d));
                                }
                            }
                            work.counts.active_rows = work.counts.active_rows - 1;
                            work.counts.row_out(&st.cols[r]);
                            done.push(r);
                            proof {
                                let s3: fill::Stage = stage(&*st, &work, state::ints(done@), nn);
                                assert(s3.done =~= s2.done.push(r as int));
                                assert(s3.active =~= s2.active.update(r as int, false));
                                assert forall|d: int| 0 <= d < nn implies #[trigger] work.counts.colcount@[d]
                                    == work1.counts.colcount@[d] - counts_in(s2, r as int, d)
                                    + counts_in(s3, r as int, d) by {
                                    profile::lemma_coef_nonzero(
                                        st.cols@[r as int]@,
                                        st.vals@[r as int]@,
                                        nn,
                                        q,
                                        d,
                                    );
                                }
                                lemma_recount(s2, s3, work1.counts, work.counts, r as int);
                                if nt::is_prime(q) {
                                    assert(fill::reduce_upto(s0, (done0.len() + 1) as int, q, *params)
                                        == fill::pivot_step(s, q, params.max_entries as int));
                                    assert(s3 =~= fill::Stage {
                                        active: s2.active.update(r as int, false),
                                        done: s2.done.push(r as int),
                                        ..s2
                                    });
                                }
                                lemma_shape_step(
                                    &st0,
                                    &*st,
                                    work0.active@,
                                    work1.active@,
                                    done0,
                                    r,
                                );
                                assert forall|k: int| 0 <= k < done@.len() implies
                                #[trigger] done@[k] < m by {}
                                lemma_retired_bound(done@, m as int);
                                if nt::is_prime(q) {
                                    assert forall|t: int|
                                        0 <= t < st0.cols@.len() && t != r
                                            && work0.active@[t] implies #[trigger] st.rows(nn)[t][c as int]
                                        == 0 by {
                                        lemma_holder_cleared(
                                            &st0,
                                            &*st,
                                            work0.active@,
                                            lists0,
                                            holders@,
                                            r as int,
                                            c,
                                            t,
                                            fs@,
                                            nn,
                                            q,
                                        );
                                    }
                                    lemma_progress_step(
                                        &st0,
                                        &*st,
                                        org,
                                        work0.active@,
                                        work1.active@,
                                        done0,
                                        piv0,
                                        r,
                                        c as int,
                                        fs@,
                                        nn,
                                        q,
                                    );
                                    piv = piv0.push(c as int);
                                    assert forall|t: int, k: int|
                                        0 <= t < st.cols@.len() && work.active@[t] && 0 <= k
                                            < st.cols@[t]@.len() implies lists(
                                        work.col_rows@[#[trigger] st.cols@[t]@[k] as int]@,
                                        t,
                                    ) by {
                                        assert(t != r);
                                        assert(work1.active@[t]);
                                        assert(work0.active@[t]);
                                        assert(st.row_wf(t, nn, q));
                                        if st.cols@[t]@[k] == c {
                                            profile::lemma_coef_listed(
                                                st.cols@[t]@,
                                                st.vals@[t]@,
                                                k,
                                            );
                                            assert(0 < st.vals@[t]@[k]);
                                            assert(st.rows(nn)[t][c as int] == 0);
                                        }
                                    }
                                }
                            }
                        },
                    }
                },
            }
        }
    }
    proof {
        assert forall|t: int|
            0 <= t < st.cols@.len() && !state::ints(done@).contains(t) implies (
        #[trigger] st.cols@[t])@.len() == 0 by {
            if !work.active@[t] {
                assert(st.cols@[t]@.len() == 0);
            }
        }
    }
    Ok((done, Ghost(piv)))
}

/// Every active row is zero at the pivot column once the rows listed there are
/// cleared.
proof fn lemma_holder_cleared(
    st0: &RowStore,
    st: &RowStore,
    active0: Seq<bool>,
    lists0: Seq<Vec<usize>>,
    holders: Seq<usize>,
    r: int,
    c: u32,
    t: int,
    fs: Seq<int>,
    n: int,
    p: int,
)
    requires
        st0.wf(n, p),
        c < n,
        adjacent(st0, active0, lists0),
        holders == lists0[c as int]@,
        0 <= t < st0.cols@.len(),
        t != r,
        active0[t],
        reduced_by(st0, st, r, c as int, fs, n, p),
        forall|k: int|
            0 <= k < holders.len() && #[trigger] holders[k] != r && active0[holders[k] as int]
                ==> st.rows(n)[holders[k] as int][c as int] == 0,
    ensures
        st.rows(n)[t][c as int] == 0,
{
    assert(st0.row_wf(t, n, p));
    let idx: Seq<u32> = st0.cols@[t]@;
    profile::lemma_coef_nonzero(idx, st0.vals@[t]@, n, p, c as int);
    if st0.rows(n)[t][c as int] != 0 {
        assert(profile::is_pivot(idx, c as int));
        let k: int = choose|k: int| 0 <= k < idx.len() && #[trigger] idx[k] == c as int;
        assert(lists(lists0[st0.cols@[t]@[k] as int]@, t));
        let j: int = choose|j: int| 0 <= j < holders.len() && #[trigger] holders[j] == t;
        assert(st.rows(n)[holders[j] as int][c as int] == 0);
    } else {
        assert(st.rows(n)[t] == st0.rows(n)[t] || st.rows(n)[t][c as int] == 0);
    }
}

/// Retiring a pivot row keeps the shape.
proof fn lemma_shape_step(
    st0: &RowStore,
    st: &RowStore,
    active0: Seq<bool>,
    active: Seq<bool>,
    done: Seq<usize>,
    r: usize,
)
    requires
        state::shape(st0, active0, done),
        kept(st0, st, active0, active, r as int),
        r < st0.cols@.len(),
    ensures
        state::shape(st, active.update(r as int, false), done.push(r)),
{
    let active2: Seq<bool> = active.update(r as int, false);
    let done2: Seq<usize> = done.push(r);
    assert forall|k: int| 0 <= k < done2.len() implies #[trigger] done2[k] < st.cols@.len()
        && !active2[done2[k] as int] by {
        if k < done.len() {
            assert(done2[k] == done[k]);
            assert(!active0[done[k] as int]);
            if active[done[k] as int] {
                assert(active0[done[k] as int]);
            }
        }
    }
    assert(done2.no_duplicates()) by {
        assert forall|i: int, j: int|
            0 <= i < done2.len() && 0 <= j < done2.len() && i != j implies done2[i] != done2[j] by {
            if i < done.len() && j < done.len() {
                assert(done[i] != done[j]);
            } else if i < done.len() {
                assert(!active0[done[i] as int]);
                assert(active0[r as int]);
            } else {
                assert(!active0[done[j] as int]);
                assert(active0[r as int]);
            }
        }
    }
    assert forall|t: int|
        0 <= t < st.cols@.len() && !#[trigger] active2[t] && !state::ints(done2).contains(
            t,
        ) implies st.cols@[t]@.len() == 0 by {
        assert(state::ints(done2)[done.len() as int] == r);
        assert(t != r);
        assert(!state::ints(done).contains(t)) by {
            if state::ints(done).contains(t) {
                let k: int = choose|k: int|
                    0 <= k < state::ints(done).len() && state::ints(done)[k] == t;
                assert(state::ints(done2)[k] == t);
            }
        }
        if active0[t] {
            assert(!active[t]);
        } else {
            assert(st.cols@[t] == st0.cols@[t]);
        }
    }
}

} // verus!
