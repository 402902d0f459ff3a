//! The dense core: the active rows, compacted to the columns they use, finished by
//! dense row echelon form.

use super::echelon;
use super::fill;
use super::gather::drop_zeros;
use super::state;
use super::store;
use super::store::RowStore;
use crate::linalg;
use crate::nt;
use crate::nullspace::profile;
use crate::nullspace::reference;
use crate::rowspace;
use vstd::prelude::*;

verus! {

/// The active rows and the columns they use.
pub struct CorePlan {
    /// The active rows, ascending.
    pub rows: Vec<usize>,
    /// The columns that an active row uses, ascending.
    pub cmap: Vec<u32>,
    /// The place of each column in `cmap`.
    pub cinv: Vec<usize>,
}

/// Some active row has an entry in column `c`.
pub open spec fn column_used(st: &RowStore, active: Seq<bool>, c: int) -> bool {
    exists|t: int|
        0 <= t < st.cols@.len() && active[t] && #[trigger] profile::is_pivot(st.cols@[t]@, c)
}

impl CorePlan {
    /// The rows are the active ones, and the columns cover them.
    pub open spec fn wf(&self, st: &RowStore, active: Seq<bool>, n: int) -> bool {
        &&& self.rows@.no_duplicates()
        &&& forall|i: int|
            0 <= i < self.rows@.len() ==> #[trigger] self.rows@[i] < st.cols@.len()
                && active[self.rows@[i] as int]
        &&& forall|t: int|
            0 <= t < st.cols@.len() && #[trigger] active[t] ==> state::ints(self.rows@).contains(t)
        &&& profile::ascending(self.cmap@)
        &&& forall|k: int| 0 <= k < self.cmap@.len() ==> #[trigger] self.cmap@[k] < n
        &&& forall|k: int|
            0 <= k < self.cmap@.len() ==> column_used(st, active, #[trigger] self.cmap@[k] as int)
        &&& self.cinv@.len() == n
        &&& forall|t: int, k: int|
            0 <= t < st.cols@.len() && active[t] && 0 <= k < st.cols@[t]@.len()
                ==> profile::is_pivot(self.cmap@, #[trigger] st.cols@[t]@[k] as int)
        &&& forall|k: int|
            0 <= k < self.cmap@.len() ==> self.cinv@[#[trigger] self.cmap@[k] as int] == k
    }
}

/// Marks the columns that row `r` uses.
fn mark_columns(cols: &Vec<u32>, used: &mut Vec<bool>, n: usize)
    requires
        old(used)@.len() == n,
        forall|k: int| 0 <= k < cols@.len() ==> #[trigger] cols@[k] < n,
    ensures
        final(used)@.len() == n,
        forall|c: int| 0 <= c < n && old(used)@[c] ==> #[trigger] final(used)@[c],
        forall|k: int| 0 <= k < cols@.len() ==> final(used)@[#[trigger] cols@[k] as int],
        forall|c: int|
            0 <= c < n && #[trigger] final(used)@[c] ==> old(used)@[c] || profile::is_pivot(
                cols@,
                c,
            ),
{
    let ghost used0 = used@;
    let mut k: usize = 0;
    while k < cols.len()
        invariant
            k <= cols@.len(),
            used@.len() == n,
            forall|i: int| 0 <= i < cols@.len() ==> #[trigger] cols@[i] < n,
            forall|c: int| 0 <= c < n && used0[c] ==> #[trigger] used@[c],
            forall|i: int| 0 <= i < k ==> used@[#[trigger] cols@[i] as int],
            forall|c: int|
                0 <= c < n && #[trigger] used@[c] ==> used0[c] || profile::is_pivot(cols@, c),
        decreases cols@.len() - k,
    {
        assert(cols@[k as int] == cols@[k as int] as int);
        assert(profile::is_pivot(cols@, cols@[k as int] as int));
        used.set(cols[k] as usize, true);
        k += 1;
    }
}

/// Some of the first `k` rows is active and holds the column exactly where the count is
/// positive.
proof fn lemma_holders_positive(s: fill::Stage, c: int, k: int)
    requires
        k >= 0,
    ensures
        fill::holders(s, c, k) > 0 <==> exists|t: int|
            0 <= t < k && #[trigger] s.active[t] && s.rows[t][c] != 0,
    decreases k,
{
    if k > 0 {
        lemma_holders_positive(s, c, k - 1);
        if fill::holders(s, c, k) > 0 {
            if s.active[k - 1] && s.rows[k - 1][c] != 0 {
                assert(s.active[k - 1]);
            } else {
                let t: int = choose|t: int|
                    0 <= t < k - 1 && #[trigger] s.active[t] && s.rows[t][c] != 0;
                assert(s.active[t]);
            }
        }
        if exists|t: int| 0 <= t < k && #[trigger] s.active[t] && s.rows[t][c] != 0 {
            let t: int = choose|t: int| 0 <= t < k && #[trigger] s.active[t] && s.rows[t][c] != 0;
            if t < k - 1 {
                assert(s.active[t]);
            }
        }
    }
}

/// A column is used exactly where its count is positive.
proof fn lemma_column_used(st: &RowStore, s: fill::Stage, c: int, n: int, p: int)
    requires
        st.wf(n, p),
        s.rows == st.rows(n),
        0 <= c < n,
    ensures
        column_used(st, s.active, c) <==> fill::column_count(s, c) > 0,
{
    lemma_holders_positive(s, c, s.rows.len() as int);
    if column_used(st, s.active, c) {
        let t: int = choose|t: int|
            0 <= t < st.cols@.len() && s.active[t] && #[trigger] profile::is_pivot(
                st.cols@[t]@,
                c,
            );
        assert(st.row_wf(t, n, p));
        profile::lemma_coef_nonzero(st.cols@[t]@, st.vals@[t]@, n, p, c);
        assert(s.active[t] && s.rows[t][c] != 0);
    }
    if fill::column_count(s, c) > 0 {
        let t: int = choose|t: int|
            0 <= t < s.rows.len() && #[trigger] s.active[t] && s.rows[t][c] != 0;
        assert(st.row_wf(t, n, p));
        profile::lemma_coef_nonzero(st.cols@[t]@, st.vals@[t]@, n, p, c);
        assert(profile::is_pivot(st.cols@[t]@, c));
    }
}

/// Lists the active rows and the columns they use.
pub fn plan_core(
    st: &RowStore,
    active: &Vec<bool>,
    n: usize,
    Ghost(p): Ghost<int>,
    Ghost(s): Ghost<fill::Stage>,
) -> (plan: CorePlan)
    requires
        st.wf(n as int, p),
        active@.len() == st.cols@.len(),
        n <= u32::MAX,
        s.rows == st.rows(n as int),
        s.active == active@,
        s.held.len() == n,
    ensures
        plan.wf(st, active@, n as int),
        state::ints(plan.rows@) == fill::active_rows(s.active, s.rows.len() as int),
        state::columns(plan.cmap@) == fill::used_columns(s, n as int),
{
    let m: usize = st.cols.len();
    let mut rows: Vec<usize> = Vec::new();
    let mut used: Vec<bool> = vec![false; n];
    let mut t: usize = 0;
    proof {
        assert(state::ints(rows@) =~= Seq::<int>::empty());
    }
    while t < m
        invariant
            t <= m,
            m == st.cols@.len(),
            st.wf(n as int, p),
            active@.len() == m,
            used@.len() == n,
            forall|i: int| 0 <= i < rows@.len() ==> #[trigger] rows@[i] < t && active@[rows@[i] as int],
            forall|i: int, j: int| 0 <= i < j < rows@.len() ==> rows@[i] < rows@[j],
            s.rows == st.rows(n as int),
            s.active == active@,
            state::ints(rows@) == fill::active_rows(s.active, t as int),
            forall|s: int| 0 <= s < t && #[trigger] active@[s] ==> state::ints(rows@).contains(s),
            forall|s: int, k: int|
                0 <= s < t && active@[s] && 0 <= k < st.cols@[s]@.len() ==> used@[#[trigger] st.cols@[s]@[k] as int],
            forall|c: int| 0 <= c < n && #[trigger] used@[c] ==> column_used(st, active@, c),
        decreases m - t,
    {
        if active[t] {
            let ghost rows1 = rows@;
            let ghost used1 = used@;
            assert(st.row_wf(t as int, n as int, p));
            mark_columns(&st.cols[t], &mut used, n);
            rows.push(t);
            proof {
                assert(state::ints(rows@) =~= state::ints(rows1).push(t as int));
                assert forall|s: int| 0 <= s < t + 1 && #[trigger] active@[s] implies state::ints(
                    rows@,
                ).contains(s) by {
                    if s < t {
                        assert(state::ints(rows1).contains(s));
                        let i: int = choose|i: int|
                            0 <= i < rows1.len() && state::ints(rows1)[i] == s;
                        assert(state::ints(rows@)[i] == s);
                    } else {
                        assert(state::ints(rows@)[rows1.len() as int] == s);
                    }
                }
                assert forall|c: int| 0 <= c < n && #[trigger] used@[c] implies column_used(
                    st,
                    active@,
                    c,
                ) by {
                    if !used1[c] {
                        assert(profile::is_pivot(st.cols@[t as int]@, c));
                    }
                }
                assert forall|s: int, k: int|
                    0 <= s < t + 1 && active@[s] && 0 <= k < st.cols@[s]@.len() implies used@[#[trigger] st.cols@[s]@[k] as int] by {
                    assert(st.row_wf(s, n as int, p));
                    assert(st.cols@[s]@[k] < n);
                    if s < t {
                        assert(used1[st.cols@[s]@[k] as int]);
                    }
                }
            }
        }
        t += 1;
    }
    let mut cmap: Vec<u32> = Vec::new();
    let mut cinv: Vec<usize> = vec![0usize; n];
    let mut c: usize = 0;
    proof {
        assert(state::columns(cmap@) =~= Seq::<int>::empty());
        assert forall|d: int| 0 <= d < n implies #[trigger] used@[d] == (fill::column_count(s, d)
            > 0) by {
            lemma_column_used(st, s, d, n as int, p);
            if column_used(st, active@, d) {
                let t: int = choose|t: int|
                    0 <= t < st.cols@.len() && active@[t] && #[trigger] profile::is_pivot(
                        st.cols@[t]@,
                        d,
                    );
                let k: int = choose|k: int|
                    0 <= k < st.cols@[t]@.len() && #[trigger] st.cols@[t]@[k] == d;
                assert(used@[st.cols@[t]@[k] as int]);
            }
        }
    }
    while c < n
        invariant
            c <= n,
            state::columns(cmap@) == fill::used_columns(s, c as int),
            forall|d: int|
                0 <= d < n ==> #[trigger] used@[d] == (fill::column_count(s, d) > 0),
            n <= u32::MAX,
            used@.len() == n,
            cinv@.len() == n,
            profile::ascending(cmap@),
            forall|k: int| 0 <= k < cmap@.len() ==> #[trigger] cmap@[k] < c,
            forall|k: int|
                0 <= k < cmap@.len() ==> column_used(st, active@, #[trigger] cmap@[k] as int),
            forall|c: int| 0 <= c < n && #[trigger] used@[c] ==> column_used(st, active@, c),
            forall|k: int| 0 <= k < cmap@.len() ==> cinv@[#[trigger] cmap@[k] as int] == k,
            forall|d: int| 0 <= d < c && used@[d] ==> #[trigger] profile::is_pivot(cmap@, d),
        decreases n - c,
    {
        if used[c] {
            let ghost cmap1 = cmap@;
            cinv.set(c, cmap.len());
            cmap.push(c as u32);
            proof {
                assert(state::columns(cmap@) =~= state::columns(cmap1).push(c as int));
                assert forall|d: int| 0 <= d < c + 1 && used@[d] implies #[trigger] profile::is_pivot(
                    cmap@,
                    d,
                ) by {
                    if d < c {
                        assert(profile::is_pivot(cmap1, d));
                        let k: int = choose|k: int|
                            0 <= k < cmap1.len() && #[trigger] cmap1[k] == d;
                        assert(cmap@[k] == d);
                    } else {
                        assert(cmap@[cmap1.len() as int] == d);
                    }
                }
            }
        }
        c += 1;
    }
    proof {
        assert forall|t: int, k: int|
            0 <= t < st.cols@.len() && active@[t] && 0 <= k < st.cols@[t]@.len() implies profile::is_pivot(
            cmap@,
            #[trigger] st.cols@[t]@[k] as int,
        ) by {
            assert(st.row_wf(t, n as int, p));
            assert(st.cols@[t]@[k] < n);
            assert(used@[st.cols@[t]@[k] as int]);
        }
    }
    CorePlan { rows, cmap, cinv }
}

/// Row `t` of the store over the columns `cmap`.
fn densify(
    cols: &Vec<u32>,
    vals: &Vec<u64>,
    cmap: &Vec<u32>,
    cinv: &Vec<usize>,
    n: usize,
    Ghost(p): Ghost<int>,
) -> (row: Vec<u64>)
    requires
        p > 0,
        profile::is_sparse(cols@, vals@, n as int, p),
        profile::ascending(cmap@),
        forall|k: int| 0 <= k < cmap@.len() ==> #[trigger] cmap@[k] < n,
        cinv@.len() == n,
        forall|k: int| 0 <= k < cmap@.len() ==> cinv@[#[trigger] cmap@[k] as int] == k,
        forall|k: int|
            0 <= k < cols@.len() ==> profile::is_pivot(cmap@, #[trigger] cols@[k] as int),
    ensures
        row@.len() == cmap@.len(),
        forall|k: int| 0 <= k < row@.len() ==> #[trigger] row@[k] < p,
        profile::expand(cmap@, row@, n as int) == profile::expand(cols@, vals@, n as int),
{
    let mut row: Vec<u64> = vec![0u64; cmap.len()];
    let mut k: usize = 0;
    while k < cols.len()
        invariant
            k <= cols@.len(),
            p > 0,
            profile::is_sparse(cols@, vals@, n as int, p),
            profile::ascending(cmap@),
            forall|k: int| 0 <= k < cmap@.len() ==> #[trigger] cmap@[k] < n,
            cinv@.len() == n,
            forall|k: int| 0 <= k < cmap@.len() ==> cinv@[#[trigger] cmap@[k] as int] == k,
            forall|k: int|
                0 <= k < cols@.len() ==> profile::is_pivot(cmap@, #[trigger] cols@[k] as int),
            row@.len() == cmap@.len(),
            forall|i: int| 0 <= i < row@.len() ==> #[trigger] row@[i] < p,
            forall|i: int| 0 <= i < k ==> row@[cinv@[#[trigger] cols@[i] as int] as int] == vals@[i],
            forall|j: int|
                0 <= j < row@.len() && #[trigger] row@[j] != 0 ==> exists|i: int|
                    0 <= i < k && cols@[i] == cmap@[j],
        decreases cols@.len() - k,
    {
        let c: u32 = cols[k];
        proof {
            assert(profile::is_pivot(cmap@, cols@[k as int] as int));
            let j: int = choose|j: int| 0 <= j < cmap@.len() && #[trigger] cmap@[j] == c as int;
            assert(cinv@[cmap@[j] as int] == j);
            assert(cmap@[j] < n);
            assert(vals@[k as int] < p);
        }
        let place: usize = cinv[c as usize];
        let ghost row1 = row@;
        row.set(place, vals[k]);
        proof {
            assert(cmap@[place as int] == c);
            assert forall|i: int| 0 <= i < k + 1 implies row@[cinv@[#[trigger] cols@[i] as int] as int]
                == vals@[i] by {
                if i < k {
                    assert(cols@[i] < cols@[k as int]);
                    assert(profile::is_pivot(cmap@, cols@[i] as int));
                    let j: int = choose|j: int|
                        0 <= j < cmap@.len() && #[trigger] cmap@[j] == cols@[i] as int;
                    assert(cinv@[cmap@[j] as int] == j);
                    assert(row1[cinv@[cols@[i] as int] as int] == vals@[i]);
                }
            }
            assert forall|j: int| 0 <= j < row@.len() && #[trigger] row@[j] != 0 implies exists|i: int|
                0 <= i < k + 1 && cols@[i] == cmap@[j] by {
                if j == place {
                    assert(cols@[k as int] == cmap@[j]);
                } else {
                    assert(row1[j] != 0);
                    let i: int = choose|i: int| 0 <= i < k && cols@[i] == cmap@[j];
                    assert(cols@[i] == cmap@[j]);
                }
            }
        }
        k += 1;
    }
    proof {
        assert forall|c: int| 0 <= c < n implies profile::coef(cmap@, row@, c) == profile::coef(
            cols@,
            vals@,
            c,
        ) by {
            if profile::is_pivot(cols@, c) {
                let i: int = choose|i: int| 0 <= i < cols@.len() && #[trigger] cols@[i] == c;
                profile::lemma_coef_listed(cols@, vals@, i);
                assert(profile::is_pivot(cmap@, cols@[i] as int));
                let j: int = choose|j: int| 0 <= j < cmap@.len() && #[trigger] cmap@[j] == cols@[i] as int;
                assert(cinv@[cmap@[j] as int] == j);
                profile::lemma_coef_listed(cmap@, row@, j);
                assert(row@[cinv@[cols@[i] as int] as int] == vals@[i]);
            } else {
                store::lemma_coef_absent(cols@, vals@, c);
                if profile::is_pivot(cmap@, c) {
                    let j: int = choose|j: int| 0 <= j < cmap@.len() && #[trigger] cmap@[j] == c;
                    profile::lemma_coef_listed(cmap@, row@, j);
                    if row@[j] != 0 {
                        let i: int = choose|i: int| 0 <= i < cols@.len() && cols@[i] == cmap@[j];
                        assert(cols@[i] == c);
                    }
                } else {
                    store::lemma_coef_absent(cmap@, row@, c);
                }
            }
        }
        assert(profile::expand(cmap@, row@, n as int) =~= profile::expand(cols@, vals@, n as int));
    }
    row
}

/// The rows that the block's places `order[..k]` name.
spec fn retired(rows: Seq<usize>, order: Seq<usize>, k: int) -> Seq<usize> {
    Seq::new(k as nat, |j: int| rows[order[j] as int])
}

/// The store with the block taken out: the block's rows are empty, the others are as
/// in `st0`.
spec fn taken_out(st: &RowStore, st0: &RowStore, rows: Seq<usize>, i: int) -> bool {
    &&& st.cols@.len() == st0.cols@.len()
    &&& st.orig == st0.orig
    &&& forall|j: int| 0 <= j < i ==> st.cols@[#[trigger] rows[j] as int]@.len() == 0
    &&& forall|t: int|
        0 <= t < st0.cols@.len() && !state::ints(rows).contains(t) ==> #[trigger] st.cols@[t]
            == st0.cols@[t]
    &&& forall|t: int|
        0 <= t < st0.cols@.len() && !state::ints(rows).contains(t) ==> #[trigger] st.vals@[t]
            == st0.vals@[t]
}

/// The store with the first `k` pivot rows of the block put back.
spec fn put_back(
    st: &RowStore,
    st0: &RowStore,
    rows: Seq<usize>,
    cmap: Seq<u32>,
    dm: Seq<Vec<u64>>,
    order: Seq<usize>,
    k: int,
    n: int,
) -> bool {
    &&& st.cols@.len() == st0.cols@.len()
    &&& st.orig == st0.orig
    &&& forall|j: int|
        0 <= j < k ==> st.row(rows[#[trigger] order[j] as int] as int, n) == profile::expand(
            cmap,
            dm[order[j] as int]@,
            n,
        )
    &&& forall|j: int|
        k <= j < order.len() ==> st.cols@[rows[#[trigger] order[j] as int] as int]@.len() == 0
    &&& forall|t: int|
        0 <= t < st0.cols@.len() && !state::ints(rows).contains(t) ==> #[trigger] st.cols@[t]
            == st0.cols@[t]
    &&& forall|t: int|
        0 <= t < st0.cols@.len() && !state::ints(rows).contains(t) ==> #[trigger] st.vals@[t]
            == st0.vals@[t]
}

proof fn lemma_spread_dot(cmap: Seq<u32>, val: Seq<u64>, y: Seq<int>, n: int)
    requires
        cmap.len() == val.len(),
        profile::ascending(cmap),
        forall|i: int| 0 <= i < cmap.len() ==> #[trigger] cmap[i] < n,
        y.len() == n,
    ensures
        linalg::dot(profile::expand(cmap, val, n), y) == linalg::dot(
            state::ints_of(val),
            rowspace::restrict(y, state::columns(cmap)),
        ),
{
    state::lemma_expand_dot(cmap, val, y, n, n, cmap.len() as int);
}

/// The value of a block row at one of its columns.
proof fn lemma_block_value(
    nxt: Seq<Seq<int>>,
    ids: Seq<int>,
    cmap: Seq<u32>,
    dm: Seq<Vec<u64>>,
    i: int,
    k: int,
    n: int,
)
    requires
        profile::ascending(cmap),
        0 <= k < cmap.len(),
        cmap[k] < n,
        nxt[ids[i]] == profile::expand(cmap, dm[i]@, n),
    ensures
        nxt[ids[i]][cmap[k] as int] == dm[i]@[k],
{
    profile::lemma_coef_listed(cmap, dm[i]@, k);
}

/// Each row of the finished block, as a row of the store: the rows after the pivot rows
/// are zero.
proof fn lemma_core_row(
    st: &RowStore,
    st0: &RowStore,
    plan: CorePlan,
    dm: Seq<Vec<u64>>,
    order: Seq<usize>,
    place: Seq<int>,
    rank: int,
    n: int,
    i: int,
)
    requires
        n >= 0,
        profile::ascending(plan.cmap@),
        reference::is_order(order, place, plan.rows@.len() as int),
        0 <= i < plan.rows@.len(),
        plan.rows@[i] < st.cols@.len(),
        forall|j: int, c: int|
            rank <= j < plan.rows@.len() && 0 <= c < plan.cmap@.len() ==> #[trigger] dm[order[j] as int]@[c]
                == 0,
        put_back(st, st0, plan.rows@, plan.cmap@, dm, order, rank, n),
    ensures
        st.rows(n)[plan.rows@[i] as int] == profile::expand(plan.cmap@, dm[i]@, n),
{
    let rows: Seq<usize> = plan.rows@;
    let cmap: Seq<u32> = plan.cmap@;
    let j: int = place[i];
    assert(order[j] == i);
    if j < rank {
        assert(st.row(rows[order[j] as int] as int, n) == profile::expand(
            cmap,
            dm[order[j] as int]@,
            n,
        ));
    } else {
        assert(st.cols@[rows[order[j] as int] as int]@.len() == 0);
        assert forall|c: int| 0 <= c < n implies profile::coef(cmap, dm[i]@, c) == 0 by {
            if profile::is_pivot(cmap, c) {
                let k: int = choose|k: int| 0 <= k < cmap.len() && #[trigger] cmap[k] == c;
                profile::lemma_coef_listed(cmap, dm[i]@, k);
                assert(dm[order[j] as int]@[k] == 0);
            } else {
                store::lemma_coef_absent(cmap, dm[i]@, c);
            }
        }
        assert(st.row(rows[i] as int, n) =~= profile::expand(cmap, dm[i]@, n));
    }
}

/// The block `bf` over whole rows is the compact block `bc`, with the rows `ids` and the
/// columns `cs`.
spec fn unfolds(
    bc: fill::Block,
    bf: fill::Block,
    rows0: Seq<Seq<int>>,
    ids: Seq<int>,
    cs: Seq<int>,
    n: int,
) -> bool {
    &&& bc.rank == bf.rank
    &&& bc.rows.len() == ids.len()
    &&& bc.order.len() == ids.len()
    &&& bf.order.len() == ids.len()
    &&& bf.rows.len() == rows0.len()
    &&& bc.order.no_duplicates()
    &&& forall|i: int|
        0 <= i < ids.len() ==> 0 <= #[trigger] bc.order[i] < ids.len() && bf.order[i]
            == ids[bc.order[i]]
    &&& forall|i: int| 0 <= i < ids.len() ==> #[trigger] bc.order.contains(i)
    &&& forall|i: int| 0 <= i < ids.len() ==> (#[trigger] bc.rows[i]).len() == cs.len()
    &&& forall|i: int| 0 <= i < ids.len() ==> bf.rows[#[trigger] ids[i]].len() == n
    &&& forall|i: int, k: int|
        0 <= i < ids.len() && 0 <= k < cs.len() ==> #[trigger] bc.rows[i][k]
            == bf.rows[ids[i]][cs[k]]
    &&& forall|i: int, c: int|
        0 <= i < ids.len() && 0 <= c < n && !cs.contains(c) ==> #[trigger] bf.rows[ids[i]][c] == 0
    &&& forall|t: int|
        0 <= t < rows0.len() && !ids.contains(t) ==> #[trigger] bf.rows[t] == rows0[t]
}

/// A step of the compact block is a step of the whole block.
proof fn lemma_unfold_step(
    bc: fill::Block,
    bf: fill::Block,
    rows0: Seq<Seq<int>>,
    ids: Seq<int>,
    cs: Seq<int>,
    n: int,
    k: int,
    p: int,
)
    requires
        p > 1,
        unfolds(bc, bf, rows0, ids, cs, n),
        ids.no_duplicates(),
        forall|i: int| 0 <= i < ids.len() ==> 0 <= #[trigger] ids[i] < rows0.len(),
        0 <= k < cs.len(),
        forall|l: int| 0 <= l < cs.len() ==> 0 <= #[trigger] cs[l] < n,
        bc.rank >= 0,
    ensures
        unfolds(fill::block_step(bc, k, p), fill::block_step(bf, cs[k], p), rows0, ids, cs, n),
        fill::block_step(bc, k, p).rank >= 0,
{
    let c: int = cs[k];
    assert forall|i: int| #[trigger]
        fill::is_first_holder(bc, k, i) <==> fill::is_first_holder(bf, c, i) by {
        if bc.rank <= i < bc.order.len() {
            assert(bc.rows[bc.order[i]][k] == bf.rows[ids[bc.order[i]]][c]);
            assert forall|j: int| bc.rank <= j < i implies #[trigger] bc.rows[bc.order[j]][k]
                == bf.rows[bf.order[j]][c] by {
                assert(bc.rows[bc.order[j]][k] == bf.rows[ids[bc.order[j]]][c]);
            }
            if fill::is_first_holder(bc, k, i) {
                assert forall|j: int| bf.rank <= j < i implies bf.rows[#[trigger] bf.order[j]][c]
                    == 0 by {
                    assert(bc.rows[bc.order[j]][k] == 0);
                }
            }
            if fill::is_first_holder(bf, c, i) {
                assert forall|j: int| bc.rank <= j < i implies bc.rows[#[trigger] bc.order[j]][k]
                    == 0 by {
                    assert(bf.rows[bf.order[j]][c] == 0);
                    assert(bc.rows[bc.order[j]][k] == bf.rows[bf.order[j]][c]);
                }
            }
        }
    }
    if exists|i: int| #[trigger] fill::is_first_holder(bc, k, i) {
        let i: int = choose|i: int| #[trigger] fill::is_first_holder(bc, k, i);
        fill::lemma_first_holder(bf, c, i);
        let r: int = bc.rank;
        let oc: Seq<int> = bc.order.update(r, bc.order[i]).update(i, bc.order[r]);
        let of: Seq<int> = bf.order.update(r, bf.order[i]).update(i, bf.order[r]);
        lemma_unfold_clear(bc, bf, oc, of, rows0, ids, cs, n, k, i, p);
    } else {
        assert forall|i: int| !#[trigger] fill::is_first_holder(bf, c, i) by {
            if fill::is_first_holder(bf, c, i) {
                assert(fill::is_first_holder(bc, k, i));
            }
        }
    }
}

/// The compact and the whole block clear the same rows in the same way.
proof fn lemma_unfold_clear(
    bc: fill::Block,
    bf: fill::Block,
    oc: Seq<int>,
    of: Seq<int>,
    rows0: Seq<Seq<int>>,
    ids: Seq<int>,
    cs: Seq<int>,
    n: int,
    k: int,
    i: int,
    p: int,
)
    requires
        p > 1,
        unfolds(bc, bf, rows0, ids, cs, n),
        ids.no_duplicates(),
        forall|i: int| 0 <= i < ids.len() ==> 0 <= #[trigger] ids[i] < rows0.len(),
        0 <= k < cs.len(),
        forall|l: int| 0 <= l < cs.len() ==> 0 <= #[trigger] cs[l] < n,
        0 <= bc.rank <= i < bc.order.len(),
        oc == bc.order.update(bc.rank, bc.order[i]).update(i, bc.order[bc.rank]),
        of == bf.order.update(bf.rank, bf.order[i]).update(i, bf.order[bf.rank]),
    ensures
        unfolds(
            fill::Block {
                rows: fill::clear_after(fill::Block { order: oc, ..bc }, k, p),
                order: oc,
                rank: bc.rank + 1,
            },
            fill::Block {
                rows: fill::clear_after(fill::Block { order: of, ..bf }, cs[k], p),
                order: of,
                rank: bf.rank + 1,
            },
            rows0,
            ids,
            cs,
            n,
        ),
{
    let c: int = cs[k];
    let r: int = bc.rank;
    let nc: Seq<Seq<int>> = fill::clear_after(fill::Block { order: oc, ..bc }, k, p);
    let nf: Seq<Seq<int>> = fill::clear_after(fill::Block { order: of, ..bf }, c, p);
    assert(oc.no_duplicates()) by {
        assert forall|a: int, b: int| 0 <= a < oc.len() && 0 <= b < oc.len() && a != b implies oc[a]
            != oc[b] by {
            let x: int = if a == r {
                i
            } else if a == i {
                r
            } else {
                a
            };
            let y: int = if b == r {
                i
            } else if b == i {
                r
            } else {
                b
            };
            assert(bc.order[x] != bc.order[y]);
        }
    }
    assert forall|a: int| 0 <= a < ids.len() implies 0 <= #[trigger] oc[a] < ids.len() && of[a]
        == ids[oc[a]] by {
        let x: int = if a == r {
            i
        } else if a == i {
            r
        } else {
            a
        };
        assert(oc[a] == bc.order[x]);
        assert(of[a] == bf.order[x]);
    }
    assert forall|a: int| 0 <= a < ids.len() implies #[trigger] oc.contains(a) by {
        assert(bc.order.contains(a));
        let x: int = choose|x: int| 0 <= x < bc.order.len() && bc.order[x] == a;
        let y: int = if x == r {
            i
        } else if x == i {
            r
        } else {
            x
        };
        assert(oc[y] == a);
    }
    assert(of.no_duplicates()) by {
        assert forall|a: int, b: int| 0 <= a < of.len() && 0 <= b < of.len() && a != b implies of[a]
            != of[b] by {
            assert(oc[a] != oc[b]);
            assert(of[a] == ids[oc[a]] && of[b] == ids[oc[b]]);
        }
    }
    let pr: int = oc[r];
    assert(of[r] == ids[pr]);
    assert forall|a: int| 0 <= a < ids.len() implies (#[trigger] nc[a]).len() == cs.len()
        && nf[ids[a]].len() == n && (forall|l: int|
        0 <= l < cs.len() ==> #[trigger] nc[a][l] == nf[ids[a]][cs[l]]) && (forall|d: int|
        0 <= d < n && !cs.contains(d) ==> #[trigger] nf[ids[a]][d] == 0) by {
        assert(oc.contains(a));
        let x: int = choose|x: int| 0 <= x < oc.len() && oc[x] == a;
        fill::lemma_place_of(oc, x);
        fill::lemma_place_of(of, x);
        assert(of[x] == ids[a]);
        assert(bc.rows[a].len() == cs.len());
        assert(bf.rows[ids[a]].len() == n);
        assert(bc.rows[a][k] == bf.rows[ids[a]][c]);
        assert(bc.rows[pr][k] == bf.rows[ids[pr]][c]);
        let f: int = fill::quotient(bc.rows[a][k], bc.rows[pr][k], p);
        assert forall|l: int| 0 <= l < cs.len() implies #[trigger] nc[a][l] == nf[ids[a]][cs[l]] by {
            assert(0 <= cs[l] < n);
            assert(bc.rows[a][l] == bf.rows[ids[a]][cs[l]]);
            assert(bc.rows[pr][l] == bf.rows[ids[pr]][cs[l]]);
        }
        assert forall|d: int| 0 <= d < n && !cs.contains(d) implies #[trigger] nf[ids[a]][d] == 0 by {
            assert(bf.rows[ids[a]][d] == 0);
            assert(bf.rows[ids[pr]][d] == 0);
            assert(f * 0 == 0) by (nonlinear_arith);
            nt::cong_mod(0, p);
            nt::cong_small(0int % p, 0, p);
        }
    }
    assert forall|a: int, l: int| 0 <= a < ids.len() && 0 <= l < cs.len() implies #[trigger] nc[a][l]
        == nf[ids[a]][cs[l]] by {
        assert(nc[a].len() == cs.len());
    }
    assert forall|a: int| 0 <= a < ids.len() implies nf[#[trigger] ids[a]].len() == n by {
        assert(nc[a].len() == cs.len());
    }
    assert forall|a: int, d: int|
        0 <= a < ids.len() && 0 <= d < n && !cs.contains(d) implies #[trigger] nf[ids[a]][d] == 0 by {
        assert(nc[a].len() == cs.len());
    }
    assert forall|t: int| 0 <= t < rows0.len() && !ids.contains(t) implies #[trigger] nf[t]
        == rows0[t] by {
        if of.contains(t) {
            let x: int = choose|x: int| 0 <= x < of.len() && of[x] == t;
            assert(of[x] == ids[oc[x]]);
        }
        assert(bf.rows[t] == rows0[t]);
    }
}

/// The compact block after some columns is the whole block after those columns.
proof fn lemma_unfold_upto(
    bc: fill::Block,
    bf: fill::Block,
    rows0: Seq<Seq<int>>,
    ids: Seq<int>,
    cs: Seq<int>,
    n: int,
    k: int,
    p: int,
)
    requires
        p > 1,
        unfolds(bc, bf, rows0, ids, cs, n),
        ids.no_duplicates(),
        forall|i: int| 0 <= i < ids.len() ==> 0 <= #[trigger] ids[i] < rows0.len(),
        0 <= k <= cs.len(),
        forall|l: int| 0 <= l < cs.len() ==> 0 <= #[trigger] cs[l] < n,
        bc.rank >= 0,
    ensures
        unfolds(
            fill::block_upto(bc, fill::all_rows(cs.len() as int), k, p),
            fill::block_upto(bf, cs, k, p),
            rows0,
            ids,
            cs,
            n,
        ),
        fill::block_upto(bc, fill::all_rows(cs.len() as int), k, p).rank >= 0,
    decreases k,
{
    if k > 0 {
        lemma_unfold_upto(bc, bf, rows0, ids, cs, n, k - 1, p);
        lemma_unfold_step(
            fill::block_upto(bc, fill::all_rows(cs.len() as int), k - 1, p),
            fill::block_upto(bf, cs, k - 1, p),
            rows0,
            ids,
            cs,
            n,
            k - 1,
            p,
        );
    }
}

/// The store after the dense core is that of the stage.
proof fn lemma_core_stage(
    st0: &RowStore,
    st: &RowStore,
    s: fill::Stage,
    plan: CorePlan,
    dm0: Seq<Vec<u64>>,
    dm: Seq<Vec<u64>>,
    order: Seq<usize>,
    place: Seq<int>,
    done0: Seq<usize>,
    rank: int,
    n: int,
    p: int,
)
    requires
        p > 1,
        n >= 0,
        s.rows == st0.rows(n),
        s.held.len() == n,
        s.done == state::ints(done0),
        plan.wf(st0, s.active, n),
        state::ints(plan.rows@) == fill::active_rows(s.active, s.rows.len() as int),
        state::columns(plan.cmap@) == fill::used_columns(s, n),
        reference::is_dense(dm0, plan.rows@.len() as int, plan.cmap@.len() as int, p),
        reference::is_dense(dm, plan.rows@.len() as int, plan.cmap@.len() as int, p),
        reference::is_order(order, place, plan.rows@.len() as int),
        forall|i: int|
            0 <= i < plan.rows@.len() ==> st0.row(#[trigger] plan.rows@[i] as int, n)
                == profile::expand(plan.cmap@, dm0[i]@, n),
        0 <= rank <= plan.rows@.len(),
        fill::block_upto(
            fill::Block {
                rows: reference::dense(dm0),
                order: fill::all_rows(plan.rows@.len() as int),
                rank: 0,
            },
            fill::all_rows(plan.cmap@.len() as int),
            plan.cmap@.len() as int,
            p,
        ) == echelon::block(dm, order, rank),
        forall|j: int, c: int|
            rank <= j < plan.rows@.len() && 0 <= c < plan.cmap@.len() ==> #[trigger] dm[order[j] as int]@[c]
                == 0,
        put_back(st, st0, plan.rows@, plan.cmap@, dm, order, rank, n),
    ensures
        fill::finish_core(s, p).rows == st.rows(n),
        fill::finish_core(s, p).done == state::ints(
            done0 + retired(plan.rows@, order, rank),
        ),
{
    let rows: Seq<usize> = plan.rows@;
    let cmap: Seq<u32> = plan.cmap@;
    let ids: Seq<int> = state::ints(rows);
    let cs: Seq<int> = state::columns(cmap);
    let mr: int = rows.len() as int;
    let mc: int = cmap.len() as int;
    let bc: fill::Block = fill::Block {
        rows: reference::dense(dm0),
        order: fill::all_rows(mr),
        rank: 0,
    };
    let bf: fill::Block = fill::Block { rows: s.rows, order: ids, rank: 0 };
    assert(ids.no_duplicates()) by {
        assert forall|i: int, j: int|
            0 <= i < ids.len() && 0 <= j < ids.len() && i != j implies ids[i] != ids[j] by {
            assert(rows[i] != rows[j]);
        }
    }
    assert forall|i: int| 0 <= i < ids.len() implies 0 <= #[trigger] ids[i] < s.rows.len() by {
        assert(rows[i] < st0.cols@.len());
    }
    assert forall|l: int| 0 <= l < cs.len() implies 0 <= #[trigger] cs[l] < n by {
        assert(cmap[l] < n);
    }
    assert(unfolds(bc, bf, s.rows, ids, cs, n)) by {
        assert forall|i: int| 0 <= i < ids.len() implies #[trigger] bc.order.contains(i) by {
            assert(bc.order[i] == i);
        }
        assert forall|i: int, k: int| 0 <= i < ids.len() && 0 <= k < cs.len() implies
        #[trigger] bc.rows[i][k] == bf.rows[ids[i]][cs[k]] by {
            assert(st0.row(rows[i] as int, n) == profile::expand(cmap, dm0[i]@, n));
            profile::lemma_coef_listed(cmap, dm0[i]@, k);
            assert(cmap[k] < n);
        }
        assert forall|i: int, c: int|
            0 <= i < ids.len() && 0 <= c < n && !cs.contains(c) implies #[trigger] bf.rows[ids[i]][c]
            == 0 by {
            assert(st0.row(rows[i] as int, n) == profile::expand(cmap, dm0[i]@, n));
            lemma_not_listed(cmap, c);
            store::lemma_coef_absent(cmap, dm0[i]@, c);
        }
    }
    lemma_unfold_upto(bc, bf, s.rows, ids, cs, n, mc, p);
    let ec: fill::Block = echelon::block(dm, order, rank);
    let ef: fill::Block = fill::block_upto(bf, cs, mc, p);
    assert(ef == fill::core_block(s, p));
    assert forall|t: int| 0 <= t < s.rows.len() implies #[trigger] ef.rows[t] == st.rows(n)[t] by {
        if ids.contains(t) {
            let i: int = choose|i: int| 0 <= i < ids.len() && ids[i] == t;
            assert(rows[i] < st0.cols@.len());
            lemma_core_row(st, st0, plan, dm, order, place, rank, n, i);
            assert forall|c: int| 0 <= c < n implies #[trigger] ef.rows[t][c] == st.rows(n)[t][c] by {
                if cs.contains(c) {
                    let k: int = choose|k: int| 0 <= k < cs.len() && cs[k] == c;
                    profile::lemma_coef_listed(cmap, dm[i]@, k);
                    assert(ec.rows[i][k] == ef.rows[ids[i]][cs[k]]);
                } else {
                    lemma_not_listed(cmap, c);
                    store::lemma_coef_absent(cmap, dm[i]@, c);
                    assert(ef.rows[ids[i]][c] == 0);
                }
            }
            assert(ef.rows[ids[i]].len() == n);
            assert(ef.rows[t] =~= st.rows(n)[t]);
        } else {
            assert(ef.rows[t] == s.rows[t]);
            assert(st.cols@[t] == st0.cols@[t]);
            assert(st.vals@[t] == st0.vals@[t]);
        }
    }
    assert(ef.rows =~= st.rows(n));
    let have: Seq<int> = state::ints(done0 + retired(rows, order, rank));
    assert(have =~= s.done + ef.order.take(rank)) by {
        assert forall|j: int| 0 <= j < rank implies #[trigger] ef.order[j] == rows[order[j] as int] by {
            assert(0 <= ec.order[j] < ids.len() && ef.order[j] == ids[ec.order[j]]);
        }
    }
}

/// A column that the list of integers lacks is not listed.
proof fn lemma_not_listed(cmap: Seq<u32>, c: int)
    requires
        !state::columns(cmap).contains(c),
    ensures
        !profile::is_pivot(cmap, c),
{
    if profile::is_pivot(cmap, c) {
        let k: int = choose|k: int| 0 <= k < cmap.len() && #[trigger] cmap[k] == c;
        assert(state::columns(cmap)[k] == c);
    }
}

/// Finishing the block finishes the reduction: the pivot rows of the block join the
/// retired rows, and every other row is empty.
proof fn lemma_core_progress(
    st0: &RowStore,
    st: &RowStore,
    org: Seq<Seq<int>>,
    active0: Seq<bool>,
    done0: Seq<usize>,
    plan: CorePlan,
    piv0: Seq<int>,
    dm0: Seq<Vec<u64>>,
    dm: Seq<Vec<u64>>,
    order: Seq<usize>,
    bpiv: Seq<usize>,
    n: int,
    p: int,
)
    requires
        nt::is_prime(p),
        n >= 0,
        st0.wf(n, p),
        st.wf(n, p),
        org.len() == st0.cols@.len(),
        state::shape(st0, active0, done0),
        state::progress(st0, org, done0, piv0, n, p),
        plan.wf(st0, active0, n),
        reference::is_dense(dm0, plan.rows@.len() as int, plan.cmap@.len() as int, p),
        reference::is_dense(dm, plan.rows@.len() as int, plan.cmap@.len() as int, p),
        forall|i: int|
            0 <= i < plan.rows@.len() ==> st0.row(#[trigger] plan.rows@[i] as int, n)
                == profile::expand(plan.cmap@, dm0[i]@, n),
        exists|place: Seq<int>|
            #[trigger] reference::is_order(order, place, plan.rows@.len() as int),
        bpiv.len() <= order.len(),
        echelon::pivots_below(bpiv, plan.cmap@.len() as int),
        echelon::echelon_state(
            dm,
            reference::dense(dm0),
            order,
            bpiv,
            plan.rows@.len() as int,
            plan.cmap@.len() as int,
            plan.cmap@.len() as int,
            p,
        ),
        put_back(st, st0, plan.rows@, plan.cmap@, dm, order, bpiv.len() as int, n),
    ensures
        state::progress(
            st,
            org,
            done0 + retired(plan.rows@, order, bpiv.len() as int),
            piv0 + Seq::new(bpiv.len(), |k: int| plan.cmap@[bpiv[k] as int] as int),
            n,
            p,
        ),
{
    let rows: Seq<usize> = plan.rows@;
    let cmap: Seq<u32> = plan.cmap@;
    let mr: int = rows.len() as int;
    let mc: int = cmap.len() as int;
    let place: Seq<int> = choose|place: Seq<int>| #[trigger] reference::is_order(order, place, mr);
    let rank: int = bpiv.len() as int;
    let cur: Seq<Seq<int>> = st0.rows(n);
    let nxt: Seq<Seq<int>> = st.rows(n);
    let ids: Seq<int> = state::ints(rows);
    let cols: Seq<int> = state::columns(cmap);
    let bdone: Seq<int> = reference::done_rows(order, rank);
    let block0: Seq<Seq<int>> = reference::dense(dm0);
    let block1: Seq<Seq<int>> = reference::dense(dm);
    let done1: Seq<usize> = done0 + retired(rows, order, rank);
    let piv1: Seq<int> = piv0 + Seq::new(bpiv.len(), |k: int| cmap[bpiv[k] as int] as int);
    // Each row of the block, as a row of the store.
    assert forall|i: int| 0 <= i < mr implies #[trigger] nxt[ids[i]] == profile::expand(
        cmap,
        dm[i]@,
        n,
    ) by {
        lemma_core_row(st, st0, plan, dm, order, place, rank, n, i);
    }
    assert(rowspace::is_spread(cur, ids, block0, cols, n)) by {
        assert forall|i: int, y: Seq<int>| 0 <= i < ids.len() && y.len() == n implies
        #[trigger] linalg::dot(cur[ids[i]], y) == linalg::dot(
            block0[i],
            rowspace::restrict(y, cols),
        ) by {
            assert(st0.row(rows[i] as int, n) == profile::expand(cmap, dm0[i]@, n));
            lemma_spread_dot(cmap, dm0[i]@, y, n);
            assert(state::ints_of(dm0[i]@) =~= block0[i]);
        }
        assert forall|i: int| 0 <= i < ids.len() implies 0 <= #[trigger] ids[i] < cur.len() by {
            assert(rows[i] < st0.cols@.len());
        }
    }
    assert(rowspace::is_spread(nxt, ids, block1, cols, n)) by {
        assert forall|i: int, y: Seq<int>| 0 <= i < ids.len() && y.len() == n implies
        #[trigger] linalg::dot(nxt[ids[i]], y) == linalg::dot(
            block1[i],
            rowspace::restrict(y, cols),
        ) by {
            assert(nxt[ids[i]] == profile::expand(cmap, dm[i]@, n));
            lemma_spread_dot(cmap, dm[i]@, y, n);
            assert(state::ints_of(dm[i]@) =~= block1[i]);
        }
        assert forall|i: int| 0 <= i < ids.len() implies 0 <= #[trigger] ids[i] < nxt.len() by {
            assert(rows[i] < st0.cols@.len());
        }
    }
    let d0: Seq<int> = state::ints(done0);
    assert forall|k: int| 0 <= k < d0.len() implies 0 <= #[trigger] d0[k] < cur.len() by {
        assert(done0[k] < st0.cols@.len());
    }
    assert forall|k: int| 0 <= k < bdone.len() implies 0 <= #[trigger] bdone[k] < mr by {
        assert(order[k] < mr);
    }
    assert(ids.no_duplicates()) by {
        assert forall|i: int, j: int|
            0 <= i < ids.len() && 0 <= j < ids.len() && i != j implies ids[i] != ids[j] by {
            assert(rows[i] != rows[j]);
        }
    }
    assert forall|i: int| 0 <= i < ids.len() implies !d0.contains(#[trigger] ids[i]) by {
        assert(active0[rows[i] as int]);
        if d0.contains(ids[i]) {
            let k: int = choose|k: int| 0 <= k < d0.len() && d0[k] == ids[i];
            assert(!active0[done0[k] as int]);
        }
    }
    assert forall|t: int| 0 <= t < cur.len() && !ids.contains(t) implies #[trigger] nxt[t]
        == cur[t] by {
        assert(st.cols@[t] == st0.cols@[t]);
        assert(st.vals@[t] == st0.vals@[t]);
    }
    rowspace::lemma_block_elimination(
        cur,
        nxt,
        org,
        d0,
        ids,
        block0,
        block1,
        bdone,
        cols,
        n,
        p,
    );
    let d1: Seq<int> = state::ints(done1);
    assert(d1 =~= d0 + rowspace::lifted(ids, bdone));
    // The pivot columns of the block are outside the old pivot columns, because the
    // active rows are zero there.
    assert forall|k: int| 0 <= k < piv0.len() implies !profile::is_pivot(
        cmap,
        #[trigger] piv0[k],
    ) by {
        if profile::is_pivot(cmap, piv0[k]) {
            let c: int = choose|c: int| 0 <= c < cmap.len() && #[trigger] cmap[c] == piv0[k];
            assert(column_used(st0, active0, cmap[c] as int));
            let t: int = choose|t: int|
                0 <= t < st0.cols@.len() && active0[t] && #[trigger] profile::is_pivot(
                    st0.cols@[t]@,
                    piv0[k],
                );
            assert(st0.row_wf(t, n, p));
            profile::lemma_coef_nonzero(st0.cols@[t]@, st0.vals@[t]@, n, p, piv0[k]);
            assert(0 <= piv0[k] < n);
            if d0.contains(t) {
                let l: int = choose|l: int| 0 <= l < d0.len() && d0[l] == t;
                assert(!active0[done0[l] as int]);
            }
            assert(st0.rows(n)[t][piv0[k]] == 0);
        }
    }
    assert forall|i: int, k: int| 0 <= i < mr && 0 <= k < piv0.len() implies #[trigger] nxt[ids[i]][piv0[k]]
        == 0 by {
        assert(0 <= piv0[k] < n);
        assert(nxt[ids[i]] == profile::expand(cmap, dm[i]@, n));
        assert(!profile::is_pivot(cmap, piv0[k]));
        store::lemma_coef_absent(cmap, dm[i]@, piv0[k]);
    }
    assert(rowspace::triangular(nxt, d1, piv1, n, p)) by {
        assert forall|i: int| 0 <= i < piv1.len() implies 0 <= #[trigger] piv1[i] < n by {
            if i < piv0.len() {
                assert(piv1[i] == piv0[i]);
            } else {
                let k: int = i - piv0.len();
                assert(bpiv[k] < mc);
                assert(cmap[bpiv[k] as int] < n);
            }
        }
        assert forall|i: int| 0 <= i < d1.len() implies 0 < #[trigger] nxt[d1[i]][piv1[i]] < p by {
            if i < d0.len() {
                assert(d1[i] == d0[i] && piv1[i] == piv0[i]);
                assert(!ids.contains(d0[i])) by {
                    if ids.contains(d0[i]) {
                        let j: int = choose|j: int| 0 <= j < ids.len() && ids[j] == d0[i];
                        assert(!d0.contains(ids[j]));
                        assert(d0.contains(d0[i]));
                    }
                }
                assert(nxt[d0[i]] == cur[d0[i]]);
                assert(0 < cur[d0[i]][piv0[i]] < p);
            } else {
                let k: int = i - d0.len();
                assert(order[k] < mr);
                assert(bpiv[k] < mc);
                assert(cmap[bpiv[k] as int] < n);
                lemma_block_value(nxt, ids, cmap, dm, order[k] as int, bpiv[k] as int, n);
                assert(dm[order[k] as int]@[bpiv[k] as int] != 0);
                assert(dm[order[k] as int]@[bpiv[k] as int] < p);
                assert(d1[i] == ids[order[k] as int]);
                assert(piv1[i] == cmap[bpiv[k] as int]);
            }
        }
        assert forall|i: int, j: int| 0 <= i < j < d1.len() implies #[trigger] nxt[d1[j]][piv1[i]]
            == 0 by {
            if j < d0.len() {
                assert(d1[j] == d0[j] && piv1[i] == piv0[i]);
                assert(!ids.contains(d0[j])) by {
                    if ids.contains(d0[j]) {
                        let l: int = choose|l: int| 0 <= l < ids.len() && ids[l] == d0[j];
                        assert(!d0.contains(ids[l]));
                        assert(d0.contains(d0[j]));
                    }
                }
                assert(nxt[d0[j]] == cur[d0[j]]);
                assert(cur[d0[j]][piv0[i]] == 0);
            } else {
                let l: int = j - d0.len();
                assert(d1[j] == ids[order[l] as int]);
                assert(order[l] < mr);
                if i < piv0.len() {
                    assert(piv1[i] == piv0[i]);
                    assert(nxt[ids[order[l] as int]][piv0[i]] == 0);
                } else {
                    let k: int = i - piv0.len();
                    assert(bpiv[k] < mc);
                    assert(cmap[bpiv[k] as int] < n);
                    lemma_block_value(nxt, ids, cmap, dm, order[l] as int, bpiv[k] as int, n);
                    assert(dm[order[l] as int]@[bpiv[k] as int] == 0);
                    assert(piv1[i] == cmap[bpiv[k] as int]);
                }
            }
        }
    }
    assert forall|t: int, i: int|
        0 <= t < st.cols@.len() && !d1.contains(t) && 0 <= i < piv1.len() implies
    #[trigger] st.rows(n)[t][piv1[i]] == 0 by {
        assert(0 <= piv1[i] < n) by {
            if i < piv0.len() {
                assert(piv1[i] == piv0[i]);
                assert(0 <= piv0[i] < n);
            } else {
                let k: int = i - piv0.len();
                assert(bpiv[k] < mc);
                assert(cmap[bpiv[k] as int] < n);
            }
        }
        if d0.contains(t) {
            let k: int = choose|k: int| 0 <= k < d0.len() && d0[k] == t;
            assert(d1[k] == t);
        }
        if ids.contains(t) {
            let l: int = choose|l: int| 0 <= l < ids.len() && ids[l] == t;
            let j: int = place[l];
            assert(order[j] == l);
            if j < rank {
                assert(d1[d0.len() + j] == t);
            }
            assert(st.cols@[rows[order[j] as int] as int]@.len() == 0);
            assert(profile::coef(st.cols@[t]@, st.vals@[t]@, piv1[i]) == 0);
        } else {
            assert(!active0[t]) by {
                if active0[t] {
                    assert(state::ints(plan.rows@).contains(t));
                }
            }
            assert(st0.cols@[t]@.len() == 0);
            assert(st.cols@[t] == st0.cols@[t]);
            assert(profile::coef(st.cols@[t]@, st.vals@[t]@, piv1[i]) == 0);
        }
    }
}

/// Finishes the active rows densely: row echelon form over the compacted block. The
/// pivot rows of the block are retired into `done`, and its other rows are emptied.
pub fn dense_core(
    st: &mut RowStore,
    active: &mut Vec<bool>,
    done: &mut Vec<usize>,
    plan: &CorePlan,
    n: usize,
    p: u64,
    max_entries: usize,
    Ghost(org): Ghost<Seq<Seq<int>>>,
    Ghost(piv0): Ghost<Seq<int>>,
    Ghost(s): Ghost<fill::Stage>,
) -> (piv: Ghost<Seq<int>>)
    requires
        p > 1,
        n <= u32::MAX,
        old(st).wf(n as int, p as int),
        org.len() == old(st).cols@.len(),
        state::shape(old(st), old(active)@, old(done)@),
        plan.wf(old(st), old(active)@, n as int),
        old(st).live_entries + plan.rows@.len() * plan.cmap@.len() <= max_entries,
        s.rows == old(st).rows(n as int),
        s.active == old(active)@,
        s.held.len() == n,
        s.done == state::ints(old(done)@),
        state::ints(plan.rows@) == fill::active_rows(s.active, s.rows.len() as int),
        state::columns(plan.cmap@) == fill::used_columns(s, n as int),
        nt::is_prime(p as int) ==> state::progress(
            old(st),
            org,
            old(done)@,
            piv0,
            n as int,
            p as int,
        ),
    ensures
        final(st).wf(n as int, p as int),
        final(st).cols@.len() == old(st).cols@.len(),
        final(st).orig == old(st).orig,
        final(st).live_entries <= max_entries,
        final(done)@.len() >= old(done)@.len(),
        state::shape(final(st), final(active)@, final(done)@),
        forall|t: int| 0 <= t < final(active)@.len() ==> !#[trigger] final(active)@[t],
        nt::is_prime(p as int) ==> fill::finish_core(s, p as int).rows == final(st).rows(n as int)
            && fill::finish_core(s, p as int).done == state::ints(final(done)@),
        nt::is_prime(p as int) ==> state::progress(
            final(st),
            org,
            final(done)@,
            piv@,
            n as int,
            p as int,
        ),
{
    let ghost q: int = p as int;
    let ghost nn: int = n as int;
    let ghost st0 = *st;
    let ghost active0 = active@;
    let ghost done0 = done@;
    let ghost rows = plan.rows@;
    let ghost cmap = plan.cmap@;
    let mr: usize = plan.rows.len();
    let mc: usize = plan.cmap.len();
    let mut dm: Vec<Vec<u64>> = Vec::new();
    let mut i: usize = 0;
    while i < mr
        invariant
            i <= mr,
            p > 1,
            q == p as int,
            nn == n as int,
            rows == plan.rows@,
            cmap == plan.cmap@,
            mr == rows.len(),
            mc == cmap.len(),
            *st == st0,
            st0.wf(nn, q),
            plan.wf(&st0, active0, nn),
            dm@.len() == i,
            forall|j: int| 0 <= j < i ==> (#[trigger] dm@[j])@.len() == mc,
            forall|j: int, k: int| 0 <= j < i && 0 <= k < mc ==> #[trigger] dm@[j]@[k] < p,
            forall|j: int|
                0 <= j < i ==> st0.row(#[trigger] rows[j] as int, nn) == profile::expand(
                    cmap,
                    dm@[j]@,
                    nn,
                ),
        decreases mr - i,
    {
        let r: usize = plan.rows[i];
        proof {
            assert(rows[i as int] < st0.cols@.len());
            assert(st0.row_wf(r as int, nn, q));
            assert forall|k: int| 0 <= k < st0.cols@[r as int]@.len() implies profile::is_pivot(
                cmap,
                #[trigger] st0.cols@[r as int]@[k] as int,
            ) by {
                assert(active0[rows[i as int] as int]);
            }
        }
        let row: Vec<u64> = densify(&st.cols[r], &st.vals[r], &plan.cmap, &plan.cinv, n, Ghost(q));
        dm.push(row);
        i += 1;
    }
    let ghost dm0 = dm@;
    let (order, bpiv): (Vec<usize>, Vec<usize>) = echelon::echelon(&mut dm, mr, mc, p);
    let ghost place: Seq<int> = choose|place: Seq<int>|
        #[trigger] reference::is_order(order@, place, mr as int);
    // Take the block out of the store.
    i = 0;
    while i < mr
        invariant
            i <= mr,
            q == p as int,
            nn == n as int,
            rows == plan.rows@,
            mr == rows.len(),
            st.wf(nn, q),
            st0.wf(nn, q),
            plan.wf(&st0, active0, nn),
            taken_out(&*st, &st0, rows, i as int),
            st.live_entries <= st0.live_entries,
            active@.len() == active0.len(),
            active0.len() == st0.cols@.len(),
            forall|j: int| 0 <= j < i ==> !active@[#[trigger] rows[j] as int],
            forall|t: int|
                0 <= t < active0.len() && !state::ints(rows).contains(t) ==> #[trigger] active@[t]
                    == active0[t],
        decreases mr - i,
    {
        let r: usize = plan.rows[i];
        proof {
            assert(rows[i as int] < st0.cols@.len());
            assert(state::ints(rows)[i as int] == r);
            assert(state::ints(rows).contains(r as int));
        }
        let ghost st1 = *st;
        let ghost active1 = active@;
        st.clear(r, Ghost(nn), Ghost(q));
        active.set(r, false);
        proof {
            assert forall|j: int| 0 <= j < i + 1 implies st.cols@[#[trigger] rows[j] as int]@.len()
                == 0 by {
                if j < i {
                    assert(rows[j] != rows[i as int]);
                    assert(rows[j] < st0.cols@.len());
                    assert(st1.cols@[rows[j] as int]@.len() == 0);
                    assert(st.cols@[rows[j] as int] == st1.cols@[rows[j] as int]);
                }
            }
            assert forall|j: int| 0 <= j < i + 1 implies !active@[#[trigger] rows[j] as int] by {
                if j < i {
                    assert(rows[j] < st0.cols@.len());
                }
            }
        }
        i += 1;
    }
    let ghost live1: int = st.live_entries as int;
    let rank: usize = bpiv.len();
    proof {
        assert(0 * (mc as int) == 0) by (nonlinear_arith);
        assert forall|j: int| 0 <= j < order@.len() implies st.cols@[rows[#[trigger] order@[j] as int] as int]@.len()
            == 0 by {
            assert(order@[j] < mr);
        }
    }
    // Put the pivot rows back.
    let mut k: usize = 0;
    while k < rank
        invariant
            k <= rank,
            p > 1,
            q == p as int,
            nn == n as int,
            rows == plan.rows@,
            cmap == plan.cmap@,
            mr == rows.len(),
            mc == cmap.len(),
            rank <= mr,
            st.wf(nn, q),
            st0.wf(nn, q),
            plan.wf(&st0, active0, nn),
            reference::is_dense(dm@, mr as int, mc as int, q),
            reference::is_order(order@, place, mr as int),
            put_back(&*st, &st0, rows, cmap, dm@, order@, k as int, nn),
            st.live_entries <= st0.live_entries + k * mc,
            st0.live_entries + mr * mc <= max_entries,
            done@ == done0 + retired(rows, order@, k as int),
        decreases rank - k,
    {
        let b: usize = order[k];
        let r: usize = plan.rows[b];
        proof {
            assert(order@[k as int] < mr);
            assert(rows[b as int] < st0.cols@.len());
            assert(profile::is_row(cmap, dm@[b as int]@, nn, q)) by {
                assert forall|i: int| 0 <= i < dm@[b as int]@.len() implies #[trigger] dm@[b as int]@[i]
                    < q by {}
            }
            assert(state::ints(rows)[b as int] == r);
            assert(state::ints(rows).contains(r as int));
        }
        let (cols, vals): (Vec<u32>, Vec<u64>) = drop_zeros(
            &plan.cmap,
            &dm[b],
            Ghost(nn),
            Ghost(q),
        );
        let ghost st1 = *st;
        proof {
            lemma_dropped_len(cols@, cmap, dm@[b as int]@, vals@, nn, q);
            assert(k * mc + mc <= mr * mc) by (nonlinear_arith)
                requires
                    k + 1 <= mr,
                    mc >= 0,
            ;
            assert((k + 1) * mc == k * mc + mc) by (nonlinear_arith);
            assert(st1.cols@[rows[order@[k as int] as int] as int]@.len() == 0);
        }
        let ghost cols0 = cols@;
        let ghost vals0 = vals@;
        st.replace(r, cols, vals, Ghost(nn), Ghost(q));
        done.push(r);
        proof {
            assert(profile::expand(cols0, vals0, nn) =~= profile::expand(
                cmap,
                dm@[b as int]@,
                nn,
            ));
            assert forall|j: int| 0 <= j < k + 1 implies st.row(
                rows[#[trigger] order@[j] as int] as int,
                nn,
            ) == profile::expand(cmap, dm@[order@[j] as int]@, nn) by {
                if j < k {
                    assert(order@[j] < mr);
                    assert(place[order@[j] as int] == j && place[b as int] == k);
                    assert(rows[order@[j] as int] != rows[b as int]);
                    assert(rows[order@[j] as int] < st0.cols@.len());
                    assert(st1.row(rows[order@[j] as int] as int, nn) == profile::expand(
                        cmap,
                        dm@[order@[j] as int]@,
                        nn,
                    ));
                }
            }
            assert forall|j: int| k + 1 <= j < order@.len() implies st.cols@[rows[#[trigger] order@[j] as int] as int]@.len()
                == 0 by {
                assert(order@[j] < mr);
                assert(place[order@[j] as int] == j && place[b as int] == k);
                assert(rows[order@[j] as int] != rows[b as int]);
                assert(rows[order@[j] as int] < st0.cols@.len());
                assert(st1.cols@[rows[order@[j] as int] as int]@.len() == 0);
            }
            assert(done@ =~= done0 + retired(rows, order@, k + 1));
        }
        k += 1;
    }
    let ghost piv = piv0 + Seq::new(bpiv@.len(), |k: int| cmap[bpiv@[k] as int] as int);
    proof {
        assert(rank * mc <= mr * mc) by (nonlinear_arith)
            requires
                rank <= mr,
                mc >= 0,
        ;
        lemma_core_shape(
            &st0,
            &*st,
            active0,
            active@,
            done0,
            *plan,
            dm@,
            order@,
            place,
            rank as int,
            nn,
        );
        if nt::is_prime(q) {
            lemma_core_stage(
                &st0,
                &*st,
                s,
                *plan,
                dm0,
                dm@,
                order@,
                place,
                done0,
                rank as int,
                nn,
                q,
            );
            lemma_core_progress(
                &st0,
                &*st,
                org,
                active0,
                done0,
                *plan,
                piv0,
                dm0,
                dm@,
                order@,
                bpiv@,
                nn,
                q,
            );
        }
    }
    Ghost(piv)
}

/// Dropping zeros does not lengthen a row.
proof fn lemma_dropped_len(
    cols: Seq<u32>,
    cmap: Seq<u32>,
    val: Seq<u64>,
    vals: Seq<u64>,
    n: int,
    p: int,
)
    requires
        profile::is_sparse(cols, vals, n, p),
        profile::is_row(cmap, val, n, p),
        forall|j: int| #[trigger] profile::coef(cols, vals, j) == profile::coef(cmap, val, j),
    ensures
        cols.len() <= cmap.len(),
{
    assert forall|k: int| 0 <= k < cols.len() implies profile::is_pivot(
        cmap,
        #[trigger] cols[k] as int,
    ) by {
        profile::lemma_coef_listed(cols, vals, k);
        assert(0 < vals[k]);
        assert(profile::coef(cols, vals, cols[k] as int) != 0);
        if !profile::is_pivot(cmap, cols[k] as int) {
            store::lemma_coef_absent(cmap, val, cols[k] as int);
        }
    }
    lemma_sublist_len(cols, cmap);
}

proof fn lemma_sublist_len(a: Seq<u32>, b: Seq<u32>)
    requires
        profile::ascending(a),
        profile::ascending(b),
        forall|k: int| 0 <= k < a.len() ==> profile::is_pivot(b, #[trigger] a[k] as int),
    ensures
        a.len() <= b.len(),
    decreases b.len(),
{
    if a.len() > 0 {
        let l: int = a.len() - 1;
        assert(profile::is_pivot(b, a[l] as int));
        let j: int = choose|j: int| 0 <= j < b.len() && #[trigger] b[j] == a[l] as int;
        let a1: Seq<u32> = a.drop_last();
        let b1: Seq<u32> = b.drop_last();
        assert forall|k: int| 0 <= k < a1.len() implies profile::is_pivot(
            b1,
            #[trigger] a1[k] as int,
        ) by {
            assert(a1[k] == a[k]);
            assert(a[k] < a[l]);
            assert(profile::is_pivot(b, a[k] as int));
            let i: int = choose|i: int| 0 <= i < b.len() && #[trigger] b[i] == a[k] as int;
            if i == b.len() - 1 && j < i {
                assert(b[j] < b[i]);
            }
            assert(b1[i] == a1[k] as int);
        }
        lemma_sublist_len(a1, b1);
    }
}

/// After the block every row is retired or empty.
proof fn lemma_core_shape(
    st0: &RowStore,
    st: &RowStore,
    active0: Seq<bool>,
    active: Seq<bool>,
    done0: Seq<usize>,
    plan: CorePlan,
    dm: Seq<Vec<u64>>,
    order: Seq<usize>,
    place: Seq<int>,
    rank: int,
    n: int,
)
    requires
        state::shape(st0, active0, done0),
        plan.wf(st0, active0, n),
        reference::is_order(order, place, plan.rows@.len() as int),
        0 <= rank <= order.len(),
        put_back(st, st0, plan.rows@, plan.cmap@, dm, order, rank, n),
        active.len() == active0.len(),
        forall|j: int| 0 <= j < plan.rows@.len() ==> !active[#[trigger] plan.rows@[j] as int],
        forall|t: int|
            0 <= t < active0.len() && !state::ints(plan.rows@).contains(t) ==> #[trigger] active[t]
                == active0[t],
    ensures
        state::shape(st, active, done0 + retired(plan.rows@, order, rank)),
        forall|t: int| 0 <= t < active.len() ==> !#[trigger] active[t],
{
    let rows: Seq<usize> = plan.rows@;
    let ids: Seq<int> = state::ints(rows);
    let add: Seq<usize> = retired(rows, order, rank);
    let done1: Seq<usize> = done0 + add;
    assert forall|t: int| 0 <= t < active.len() implies !#[trigger] active[t] by {
        if ids.contains(t) {
            let j: int = choose|j: int| 0 <= j < ids.len() && ids[j] == t;
            assert(!active[rows[j] as int]);
        } else {
            assert(active[t] == active0[t]);
        }
    }
    assert forall|k: int| 0 <= k < done1.len() implies #[trigger] done1[k] < st.cols@.len()
        && !active[done1[k] as int] by {
        if k < done0.len() {
            assert(done1[k] == done0[k]);
        } else {
            let j: int = k - done0.len();
            assert(order[j] < rows.len());
            assert(done1[k] == rows[order[j] as int]);
        }
    }
    assert(done1.no_duplicates()) by {
        assert forall|a: int, b: int|
            0 <= a < done1.len() && 0 <= b < done1.len() && a != b implies done1[a] != done1[b] by {
            if a < done0.len() && b < done0.len() {
                assert(done0[a] != done0[b]);
            } else if a >= done0.len() && b >= done0.len() {
                let x: int = a - done0.len();
                let y: int = b - done0.len();
                assert(place[order[x] as int] == x && place[order[y] as int] == y);
                assert(rows[order[x] as int] != rows[order[y] as int]);
            } else {
                let (x, y): (int, int) = if a < done0.len() {
                    (a, b - done0.len())
                } else {
                    (b, a - done0.len())
                };
                assert(!active0[done0[x] as int]);
                assert(order[y] < rows.len());
                assert(active0[rows[order[y] as int] as int]);
            }
        }
    }
    assert forall|t: int|
        0 <= t < st.cols@.len() && !#[trigger] active[t] && !state::ints(done1).contains(
            t,
        ) implies st.cols@[t]@.len() == 0 by {
        if state::ints(done0).contains(t) {
            let k: int = choose|k: int|
                0 <= k < state::ints(done0).len() && state::ints(done0)[k] == t;
            assert(state::ints(done1)[k] == t);
        }
        if ids.contains(t) {
            let l: int = choose|l: int| 0 <= l < ids.len() && ids[l] == t;
            let j: int = place[l];
            assert(order[j] == l);
            if j < rank {
                assert(state::ints(done1)[done0.len() + j] == t);
            }
            assert(st.cols@[rows[order[j] as int] as int]@.len() == 0);
        } else {
            assert(st.cols@[t] == st0.cols@[t]);
            assert(active[t] == active0[t]);
        }
    }
}

} // verus!
