//! What the lane's budget meters: the elimination pivot by pivot, on matrices of residues.
//!
//! Which entries are live at a moment depends on which pivots came first and in which order
//! the rows were cleared. This is that order, stated on whole rows.

use super::store;
use super::store::RowStore;
use super::Params;
use crate::nt;
use crate::nullspace::profile;
use vstd::prelude::*;

verus! {

/// The number of nonzero coordinates among the first `k`.
pub open spec fn entries_upto(row: Seq<int>, k: int) -> nat
    decreases k,
{
    if k <= 0 {
        0
    } else {
        entries_upto(row, k - 1) + if row[k - 1] != 0 {
            1nat
        } else {
            0
        }
    }
}

/// The number of nonzero coordinates.
pub open spec fn entries(row: Seq<int>) -> nat {
    entries_upto(row, row.len() as int)
}

/// The number of nonzero coordinates of all rows.
pub open spec fn live(rows: Seq<Seq<int>>) -> nat
    decreases rows.len(),
{
    if rows.len() == 0 {
        0
    } else {
        live(rows.drop_last()) + entries(rows.last())
    }
}

/// `f` is the residue of `x / y`.
pub open spec fn is_quotient(f: int, x: int, y: int, p: int) -> bool {
    0 <= f < p && nt::cong(f * y, x, p)
}

/// The residue of `x / y`.
pub open spec fn quotient(x: int, y: int, p: int) -> int {
    choose|f: int| #[trigger] is_quotient(f, x, y, p)
}

/// Row `t` less the multiple of row `r` that clears its coordinate `c`.
pub open spec fn cleared(t: Seq<int>, r: Seq<int>, c: int, p: int) -> Seq<int> {
    Seq::new(t.len(), |j: int| (t[j] - quotient(t[c], r[c], p) * r[j]) % p)
}

/// The multiple of row `r` whose coordinate `c` is one.
pub open spec fn normalized(r: Seq<int>, c: int, p: int) -> Seq<int> {
    Seq::new(r.len(), |j: int| (quotient(1, r[c], p) * r[j]) % p)
}

/// The reduction between two steps.
#[verifier::ext_equal]
pub struct Stage {
    /// The rows.
    pub rows: Seq<Seq<int>>,
    /// Which rows are still to be used as pivot rows.
    pub active: Seq<bool>,
    /// For each column the rows that were seen to hold it, in the order seen.
    pub held: Seq<Seq<int>>,
    /// The pivot rows so far.
    pub done: Seq<int>,
}

/// What a step comes to.
pub enum Outcome {
    /// The reduction goes on.
    Going(Stage),
    /// The budget is exceeded, by so many live entries, after so many pivots.
    Over {
        /// The live entries.
        live: nat,
        /// The pivots before this one.
        pivots: nat,
    },
}

/// Row `t` is also listed under the columns that `new` holds and `old_row` did not.
pub open spec fn listing(held: Seq<Seq<int>>, old_row: Seq<int>, new: Seq<int>, t: int) -> Seq<
    Seq<int>,
> {
    Seq::new(
        held.len(),
        |d: int|
            if new[d] != 0 && old_row[d] == 0 {
                held[d].push(t)
            } else {
                held[d]
            },
    )
}

/// Those of the first `k` rows of `sel` that hold column `c`, in order.
pub open spec fn holding(rows: Seq<Seq<int>>, sel: Seq<int>, c: int, k: int) -> Seq<int>
    decreases k,
{
    if k <= 0 {
        Seq::empty()
    } else if rows[sel[k - 1]][c] != 0 {
        holding(rows, sel, c, k - 1).push(sel[k - 1])
    } else {
        holding(rows, sel, c, k - 1)
    }
}

/// The start of a phase: the rows of `sel` are listed under their columns.
pub open spec fn start(rows: Seq<Seq<int>>, sel: Seq<int>, n: int) -> Stage {
    Stage {
        rows,
        active: Seq::new(rows.len(), |t: int| true),
        held: Seq::new(n as nat, |c: int| holding(rows, sel, c, sel.len() as int)),
        done: Seq::empty(),
    }
}

/// Clearing column `c` in row `t`, where row `t` holds it, with the pivot row `r`. In the
/// first phase only active rows are cleared, and an empty row is no longer active.
pub open spec fn clear_row(
    s: Stage,
    first: bool,
    r: int,
    c: int,
    t: int,
    p: int,
    budget: int,
) -> Outcome {
    if t == r || (first && !s.active[t]) || s.rows[t][c] == 0 {
        Outcome::Going(s)
    } else {
        let new = cleared(s.rows[t], s.rows[r], c, p);
        let rows = s.rows.update(t, new);
        if live(rows) > budget {
            Outcome::Over { live: live(rows), pivots: s.done.len() }
        } else {
            Outcome::Going(
                Stage {
                    rows,
                    active: if first && entries(new) == 0 {
                        s.active.update(t, false)
                    } else {
                        s.active
                    },
                    held: listing(s.held, s.rows[t], new, t),
                    done: s.done,
                },
            )
        }
    }
}

/// Clearing column `c` in the first `k` of the rows `hs`, one after the other.
pub open spec fn clear_rows(
    s: Stage,
    first: bool,
    r: int,
    c: int,
    hs: Seq<int>,
    k: int,
    p: int,
    budget: int,
) -> Outcome
    decreases k,
{
    if k <= 0 {
        Outcome::Going(s)
    } else {
        match clear_rows(s, first, r, c, hs, k - 1, p, budget) {
            Outcome::Going(s1) => clear_row(s1, first, r, c, hs[k - 1], p, budget),
            over => over,
        }
    }
}

/// Taking row `r` with column `c` as the next pivot: the rows listed under the column are
/// cleared, and the pivot row is retired.
pub open spec fn pivot_on(
    s: Stage,
    first: bool,
    r: int,
    c: int,
    hs: Seq<int>,
    p: int,
    budget: int,
) -> Outcome {
    match clear_rows(s, first, r, c, hs, hs.len() as int, p, budget) {
        Outcome::Going(s1) => Outcome::Going(
            Stage { active: s1.active.update(r, false), done: s1.done.push(r), ..s1 },
        ),
        over => over,
    }
}

/// The stage with nothing listed under column `c`.
pub open spec fn unlisted(s: Stage, c: int) -> Stage {
    Stage { held: s.held.update(c, Seq::empty()), ..s }
}

/// Row `t` is active and has entries.
pub open spec fn is_candidate(s: Stage, t: int) -> bool {
    0 <= t < s.rows.len() && s.active[t] && entries(s.rows[t]) > 0
}

/// Row `r` is the active row with the fewest entries, the first of several.
pub open spec fn is_sparsest(s: Stage, r: int) -> bool {
    &&& is_candidate(s, r)
    &&& forall|t: int| #[trigger]
        is_candidate(s, t) ==> entries(s.rows[r]) < entries(s.rows[t]) || (entries(s.rows[r])
            == entries(s.rows[t]) && r <= t)
}

/// How many of the first `k` rows are active and hold column `c`.
pub open spec fn holders(s: Stage, c: int, k: int) -> nat
    decreases k,
{
    if k <= 0 {
        0
    } else {
        holders(s, c, k - 1) + if s.active[k - 1] && s.rows[k - 1][c] != 0 {
            1nat
        } else {
            0
        }
    }
}

/// How many active rows hold column `c`.
pub open spec fn column_count(s: Stage, c: int) -> nat {
    holders(s, c, s.rows.len() as int)
}

/// Of the columns of row `r`, column `c` is the one that the fewest active rows hold, the
/// first of several.
pub open spec fn is_rarest(s: Stage, r: int, c: int) -> bool {
    &&& 0 <= c < s.held.len()
    &&& s.rows[r][c] != 0
    &&& forall|d: int|
        0 <= d < s.held.len() && #[trigger] s.rows[r][d] != 0 ==> column_count(s, c) < column_count(
            s,
            d,
        ) || (column_count(s, c) == column_count(s, d) && c <= d)
}

/// The next pivot row of the first phase.
pub open spec fn next_row(s: Stage) -> int {
    choose|r: int| #[trigger] is_sparsest(s, r)
}

/// The next pivot column of the first phase.
pub open spec fn next_column(s: Stage) -> int {
    choose|c: int| #[trigger] is_rarest(s, next_row(s), c)
}

/// The next pivot of the first phase.
pub open spec fn pivot_step(s: Stage, p: int, budget: int) -> Outcome {
    let c = next_column(s);
    pivot_on(unlisted(s, c), true, next_row(s), c, s.held[c], p, budget)
}

/// The active ones of the first `k` rows.
pub open spec fn active_rows(active: Seq<bool>, k: int) -> Seq<int>
    decreases k,
{
    if k <= 0 {
        Seq::empty()
    } else if active[k - 1] {
        active_rows(active, k - 1).push(k - 1)
    } else {
        active_rows(active, k - 1)
    }
}

/// The columns below `c` that an active row holds.
pub open spec fn used_columns(s: Stage, c: int) -> Seq<int>
    decreases c,
{
    if c <= 0 {
        Seq::empty()
    } else if column_count(s, c - 1) > 0 {
        used_columns(s, c - 1).push(c - 1)
    } else {
        used_columns(s, c - 1)
    }
}

/// The active block is small and full enough to be finished densely.
pub open spec fn core_due(s: Stage, prm: Params) -> bool {
    let area = active_rows(s.active, s.rows.len() as int).len() * used_columns(
        s,
        s.held.len() as int,
    ).len();
    &&& active_rows(s.active, s.rows.len() as int).len() > 0
    &&& area <= prm.dense_cap
    &&& live(s.rows) * prm.dense_inv_density >= area
    &&& live(s.rows) + area <= prm.max_entries
}

/// A block in row echelon form as far as it has come: the rows, the block's rows in order,
/// and how many of them are pivot rows.
#[verifier::ext_equal]
pub struct Block {
    /// The rows.
    pub rows: Seq<Seq<int>>,
    /// The block's rows, pivot rows first.
    pub order: Seq<int>,
    /// The number of pivot rows.
    pub rank: int,
}

/// Place `i` is the first one after the pivot rows whose row holds column `c`.
pub open spec fn is_first_holder(b: Block, c: int, i: int) -> bool {
    &&& b.rank <= i < b.order.len()
    &&& b.rows[b.order[i]][c] != 0
    &&& forall|j: int| b.rank <= j < i ==> b.rows[#[trigger] b.order[j]][c] == 0
}

/// The place of row `t` in the order.
pub open spec fn place_of(order: Seq<int>, t: int) -> int {
    choose|i: int| 0 <= i < order.len() && #[trigger] order[i] == t
}

/// Clearing column `c` in every row of the block after place `b.rank`.
pub open spec fn clear_after(b: Block, c: int, p: int) -> Seq<Seq<int>> {
    Seq::new(
        b.rows.len(),
        |t: int|
            if b.order.contains(t) && place_of(b.order, t) > b.rank {
                cleared(b.rows[t], b.rows[b.order[b.rank]], c, p)
            } else {
                b.rows[t]
            },
    )
}

/// Column `c` of the block: its first holder becomes the next pivot row, and the rows
/// after it are cleared.
pub open spec fn block_step(b: Block, c: int, p: int) -> Block {
    if exists|i: int| #[trigger] is_first_holder(b, c, i) {
        let i = choose|i: int| #[trigger] is_first_holder(b, c, i);
        let order = b.order.update(b.rank, b.order[i]).update(i, b.order[b.rank]);
        let b1 = Block { order, ..b };
        Block { rows: clear_after(b1, c, p), order, rank: b.rank + 1 }
    } else {
        b
    }
}

/// The block after the first `k` of the columns `cs`.
pub open spec fn block_upto(b: Block, cs: Seq<int>, k: int, p: int) -> Block
    decreases k,
{
    if k <= 0 {
        b
    } else {
        block_step(block_upto(b, cs, k - 1, p), cs[k - 1], p)
    }
}

/// The active block in row echelon form.
pub open spec fn core_block(s: Stage, p: int) -> Block {
    let cs = used_columns(s, s.held.len() as int);
    let b = Block {
        rows: s.rows,
        order: active_rows(s.active, s.rows.len() as int),
        rank: 0,
    };
    block_upto(b, cs, cs.len() as int, p)
}

/// The first phase finished densely: the pivot rows of the block are retired.
pub open spec fn finish_core(s: Stage, p: int) -> Stage {
    let b = core_block(s, p);
    Stage {
        rows: b.rows,
        active: Seq::new(s.rows.len(), |t: int| false),
        held: s.held,
        done: s.done + b.order.take(b.rank),
    }
}

/// The first phase has no more pivots to take one by one.
pub open spec fn is_settled(s: Stage, prm: Params) -> bool {
    core_due(s, prm) || !exists|t: int| #[trigger] is_candidate(s, t)
}

/// The first phase after at most `k` pivots.
pub open spec fn reduce_upto(s: Stage, k: int, p: int, prm: Params) -> Outcome
    decreases k,
{
    if k <= 0 {
        Outcome::Going(s)
    } else {
        match reduce_upto(s, k - 1, p, prm) {
            Outcome::Going(s1) => if is_settled(s1, prm) {
                Outcome::Going(s1)
            } else {
                pivot_step(s1, p, prm.max_entries as int)
            },
            over => over,
        }
    }
}

/// The first phase.
pub open spec fn reduce(s: Stage, p: int, prm: Params) -> Outcome {
    match reduce_upto(s, s.rows.len() as int, p, prm) {
        Outcome::Going(s1) => Outcome::Going(
            if core_due(s1, prm) {
                finish_core(s1, p)
            } else {
                s1
            },
        ),
        over => over,
    }
}

/// Place `j` of the rows `hs` is a row that can be the pivot row of column `c`.
pub open spec fn can_pivot(s: Stage, hs: Seq<int>, c: int, j: int) -> bool {
    0 <= j < hs.len() && s.active[hs[j]] && s.rows[hs[j]][c] != 0
}

/// Place `j` holds the row with the fewest entries of those that can be the pivot row, the
/// first of several.
pub open spec fn is_lightest(s: Stage, hs: Seq<int>, c: int, j: int) -> bool {
    &&& can_pivot(s, hs, c, j)
    &&& forall|i: int| #[trigger]
        can_pivot(s, hs, c, i) ==> entries(s.rows[hs[j]]) < entries(s.rows[hs[i]]) || (entries(
            s.rows[hs[j]],
        ) == entries(s.rows[hs[i]]) && j <= i)
}

/// The second phase at column `c`.
pub open spec fn column_step(s: Stage, c: int, p: int, budget: int) -> Outcome {
    let hs = s.held[c];
    let s1 = unlisted(s, c);
    if exists|j: int| #[trigger] can_pivot(s, hs, c, j) {
        let r = hs[choose|j: int| #[trigger] is_lightest(s, hs, c, j)];
        let s2 = Stage { rows: s1.rows.update(r, normalized(s1.rows[r], c, p)), ..s1 };
        pivot_on(s2, false, r, c, hs, p, budget)
    } else {
        Outcome::Going(s1)
    }
}

/// The second phase after the columns below `c`.
pub open spec fn canonicalize_upto(s: Stage, c: int, p: int, budget: int) -> Outcome
    decreases c,
{
    if c <= 0 {
        Outcome::Going(s)
    } else {
        match canonicalize_upto(s, c - 1, p, budget) {
            Outcome::Going(s1) => column_step(s1, c - 1, p, budget),
            over => over,
        }
    }
}

/// The residues of a matrix of `n` columns.
pub open spec fn residues(mat: Seq<Seq<int>>, n: int, p: int) -> Seq<Seq<int>> {
    Seq::new(mat.len(), |r: int| Seq::new(n as nat, |c: int| mat[r][c] % p))
}

/// The rows that `ids` names.
pub open spec fn select(rows: Seq<Seq<int>>, ids: Seq<int>) -> Seq<Seq<int>> {
    Seq::new(ids.len(), |i: int| rows[ids[i]])
}

/// One of the rows `ids` is row `r`.
pub open spec fn repeats(rows: Seq<Seq<int>>, ids: Seq<int>, r: int) -> bool {
    exists|i: int| 0 <= i < ids.len() && rows[#[trigger] ids[i]] == rows[r]
}

/// What gathering the rows comes to.
pub enum Gathered {
    /// The rows with entries, each once.
    Rows(Seq<int>),
    /// The budget is exceeded by so many live entries.
    Over(nat),
}

/// The first `k` rows, gathered: a row without entries or one that is there already is
/// passed over.
pub open spec fn gather_upto(rows: Seq<Seq<int>>, k: int, budget: int) -> Gathered
    decreases k,
{
    if k <= 0 {
        Gathered::Rows(Seq::empty())
    } else {
        match gather_upto(rows, k - 1, budget) {
            Gathered::Rows(ids) => if entries(rows[k - 1]) == 0 || repeats(rows, ids, k - 1) {
                Gathered::Rows(ids)
            } else if live(select(rows, ids.push(k - 1))) > budget {
                Gathered::Over(live(select(rows, ids.push(k - 1))))
            } else {
                Gathered::Rows(ids.push(k - 1))
            },
            over => over,
        }
    }
}

/// What the lane comes to.
pub enum Verdict {
    /// It succeeds, with these rows as pivot rows of the first phase.
    Done(Seq<int>),
    /// The budget is exceeded.
    Over {
        /// The live entries.
        live: nat,
        /// The pivots of the phase so far.
        pivots: nat,
        /// The phase.
        phase: u8,
    },
}

/// The lane on a matrix of `n` columns modulo `p`.
pub open spec fn run(mat: Seq<Seq<int>>, n: int, p: int, prm: Params) -> Verdict {
    let budget = prm.max_entries as int;
    let res = residues(mat, n, p);
    match gather_upto(res, res.len() as int, budget) {
        Gathered::Over(live) => Verdict::Over { live, pivots: 0, phase: 1 },
        Gathered::Rows(ids) => {
            let rows = select(res, ids);
            match reduce(start(rows, all_rows(rows.len() as int), n), p, prm) {
                Outcome::Over { live, pivots } => Verdict::Over { live, pivots, phase: 1 },
                Outcome::Going(s) => match canonicalize_upto(
                    start(s.rows, s.done, n),
                    n,
                    p,
                    budget,
                ) {
                    Outcome::Over { live, pivots } => Verdict::Over { live, pivots, phase: 2 },
                    Outcome::Going(_) => Verdict::Done(
                        Seq::new(s.done.len(), |i: int| ids[s.done[i]]),
                    ),
                },
            }
        },
    }
}

/// Once the budget is exceeded in gathering it stays so.
pub proof fn lemma_gather_over(rows: Seq<Seq<int>>, k: int, l: int, budget: int)
    requires
        0 <= k <= l,
        gather_upto(rows, k, budget) is Over,
    ensures
        gather_upto(rows, l, budget) == gather_upto(rows, k, budget),
    decreases l - k,
{
    if k < l {
        lemma_gather_over(rows, k, l - 1, budget);
    }
}

/// Once the budget is exceeded it stays so.
pub proof fn lemma_over_stays(
    s: Stage,
    first: bool,
    r: int,
    c: int,
    hs: Seq<int>,
    k: int,
    l: int,
    p: int,
    budget: int,
)
    requires
        0 <= k <= l,
        clear_rows(s, first, r, c, hs, k, p, budget) is Over,
    ensures
        clear_rows(s, first, r, c, hs, l, p, budget) == clear_rows(s, first, r, c, hs, k, p, budget),
    decreases l - k,
{
    if k < l {
        lemma_over_stays(s, first, r, c, hs, k, l - 1, p, budget);
    }
}

/// A settled first phase takes no more pivots.
pub proof fn lemma_settled_stays(s: Stage, k: int, l: int, p: int, prm: Params)
    requires
        0 <= k <= l,
        reduce_upto(s, k, p, prm) matches Outcome::Going(s1) && is_settled(s1, prm),
    ensures
        reduce_upto(s, l, p, prm) == reduce_upto(s, k, p, prm),
    decreases l - k,
{
    if k < l {
        lemma_settled_stays(s, k, l - 1, p, prm);
    }
}

/// Once the budget is exceeded in the first phase it stays so.
pub proof fn lemma_reduce_over(s: Stage, k: int, l: int, p: int, prm: Params)
    requires
        0 <= k <= l,
        reduce_upto(s, k, p, prm) is Over,
    ensures
        reduce_upto(s, l, p, prm) == reduce_upto(s, k, p, prm),
    decreases l - k,
{
    if k < l {
        lemma_reduce_over(s, k, l - 1, p, prm);
    }
}

/// Once the budget is exceeded in the second phase it stays so.
pub proof fn lemma_canonicalize_over(s: Stage, k: int, l: int, p: int, budget: int)
    requires
        0 <= k <= l,
        canonicalize_upto(s, k, p, budget) is Over,
    ensures
        canonicalize_upto(s, l, p, budget) == canonicalize_upto(s, k, p, budget),
    decreases l - k,
{
    if k < l {
        lemma_canonicalize_over(s, k, l - 1, p, budget);
    }
}

/// There is one sparsest row.
pub proof fn lemma_next_row(s: Stage, r: int)
    requires
        is_sparsest(s, r),
    ensures
        next_row(s) == r,
{
    let x: int = next_row(s);
    assert(is_sparsest(s, x));
    assert(is_candidate(s, r) && is_candidate(s, x));
}

/// There is one rarest column.
pub proof fn lemma_next_column(s: Stage, c: int)
    requires
        is_rarest(s, next_row(s), c),
    ensures
        next_column(s) == c,
{
    let r: int = next_row(s);
    let x: int = next_column(s);
    assert(is_rarest(s, r, x));
    assert(s.rows[r][x] != 0 && s.rows[r][c] != 0);
}

/// There is one lightest row.
pub proof fn lemma_lightest(s: Stage, hs: Seq<int>, c: int, j: int)
    requires
        is_lightest(s, hs, c, j),
    ensures
        j == choose|j: int| #[trigger] is_lightest(s, hs, c, j),
{
    let x: int = choose|j: int| #[trigger] is_lightest(s, hs, c, j);
    assert(is_lightest(s, hs, c, x));
    assert(can_pivot(s, hs, c, j) && can_pivot(s, hs, c, x));
}

/// A block whose rows are all pivot rows does not change.
pub proof fn lemma_block_full(b: Block, cs: Seq<int>, k: int, l: int, p: int)
    requires
        0 <= k <= l,
        block_upto(b, cs, k, p).rank >= block_upto(b, cs, k, p).order.len(),
    ensures
        block_upto(b, cs, l, p) == block_upto(b, cs, k, p),
    decreases l - k,
{
    if k < l {
        lemma_block_full(b, cs, k, l - 1, p);
        let b1: Block = block_upto(b, cs, l - 1, p);
        assert forall|i: int| !#[trigger] is_first_holder(b1, cs[l - 1], i) by {}
    }
}

/// There is one first holder.
pub proof fn lemma_first_holder(b: Block, c: int, i: int)
    requires
        is_first_holder(b, c, i),
    ensures
        i == choose|i: int| #[trigger] is_first_holder(b, c, i),
{
    let x: int = choose|i: int| #[trigger] is_first_holder(b, c, i);
    assert(is_first_holder(b, c, x));
    if x < i {
        assert(b.rows[b.order[x]][c] == 0);
    } else if i < x {
        assert(b.rows[b.order[i]][c] == 0);
    }
}

/// In an order without repetition a row has one place.
pub proof fn lemma_place_of(order: Seq<int>, i: int)
    requires
        order.no_duplicates(),
        0 <= i < order.len(),
    ensures
        place_of(order, order[i]) == i,
        order.contains(order[i]),
{
    let t: int = order[i];
    let x: int = place_of(order, t);
    assert(0 <= x < order.len() && order[x] == t);
}

/// The row order of a start.
pub open spec fn all_rows(m: int) -> Seq<int> {
    Seq::new(m as nat, |t: int| t)
}

proof fn lemma_entries_upto(idx: Seq<u32>, val: Seq<u64>, n: int, p: int, k: int)
    requires
        profile::is_sparse(idx, val, n, p),
        0 <= k <= n,
    ensures
        entries_upto(profile::expand(idx, val, n), k) + profile::free_cols(idx, k).len() == k,
    decreases k,
{
    if k > 0 {
        lemma_entries_upto(idx, val, n, p, k - 1);
        profile::lemma_coef_nonzero(idx, val, n, p, k - 1);
    }
}

/// A sparse row of nonzero residues has as many entries as it lists.
pub proof fn lemma_entries(idx: Seq<u32>, val: Seq<u64>, n: int, p: int)
    requires
        profile::is_sparse(idx, val, n, p),
        n >= 0,
    ensures
        entries(profile::expand(idx, val, n)) == idx.len(),
{
    lemma_entries_upto(idx, val, n, p, n);
    profile::lemma_free_count(idx, n);
}

proof fn lemma_live_total(rows: Seq<Seq<int>>, cols: Seq<Vec<u32>>)
    requires
        rows.len() == cols.len(),
        forall|i: int| 0 <= i < rows.len() ==> entries(#[trigger] rows[i]) == cols[i]@.len(),
    ensures
        live(rows) == store::total_len(cols),
    decreases rows.len(),
{
    if rows.len() > 0 {
        let l: int = rows.len() - 1;
        assert(entries(rows[l]) == cols[l]@.len());
        assert forall|i: int| 0 <= i < rows.drop_last().len() implies entries(
            #[trigger] rows.drop_last()[i],
        ) == cols.drop_last()[i]@.len() by {
            assert(entries(rows[i]) == cols[i]@.len());
        }
        lemma_live_total(rows.drop_last(), cols.drop_last());
    }
}

/// A store counts its live entries, row by row and in all.
pub proof fn lemma_live(st: &RowStore, n: int, p: int)
    requires
        st.wf(n, p),
        n >= 0,
    ensures
        live(st.rows(n)) == st.live_entries,
        forall|t: int|
            0 <= t < st.cols@.len() ==> entries(#[trigger] st.rows(n)[t]) == st.cols@[t]@.len(),
{
    assert forall|t: int| 0 <= t < st.cols@.len() implies entries(#[trigger] st.rows(n)[t])
        == st.cols@[t]@.len() by {
        assert(st.row_wf(t, n, p));
        lemma_entries(st.cols@[t]@, st.vals@[t]@, n, p);
    }
    lemma_live_total(st.rows(n), st.cols@);
}

/// Replacing one row changes the live entries by the difference.
pub proof fn lemma_live_update(rows: Seq<Seq<int>>, t: int, new: Seq<int>)
    requires
        0 <= t < rows.len(),
    ensures
        live(rows.update(t, new)) == live(rows) - entries(rows[t]) + entries(new),
        entries(rows[t]) <= live(rows),
    decreases rows.len(),
{
    let upd: Seq<Seq<int>> = rows.update(t, new);
    if t == rows.len() - 1 {
        assert(upd.drop_last() =~= rows.drop_last());
    } else {
        lemma_live_update(rows.drop_last(), t, new);
        assert(upd.drop_last() =~= rows.drop_last().update(t, new));
    }
}

/// Modulo a prime a quotient is the only one.
pub proof fn lemma_quotient(f: int, x: int, y: int, p: int)
    requires
        nt::is_prime(p),
        !nt::cong(y, 0, p),
        is_quotient(f, x, y, p),
    ensures
        quotient(x, y, p) == f,
{
    let g: int = quotient(x, y, p);
    assert(is_quotient(g, x, y, p));
    let v: int = nt::prime_inverse_exists(y, p);
    nt::cong_sym(g * y, x, p);
    nt::cong_trans(f * y, x, g * y, p);
    assert(f * y == y * f && g * y == y * g) by (nonlinear_arith);
    nt::cong_cancel(y, v, f, g, p);
    nt::cong_small(f, g, p);
}

/// Multiplying with an inverse gives the quotient.
pub proof fn lemma_quotient_by_inverse(x: int, y: int, inv: int, p: int)
    requires
        nt::is_prime(p),
        nt::cong(inv * y, 1, p),
    ensures
        quotient(x, y, p) == (x * inv) % p,
{
    let f: int = (x * inv) % p;
    if nt::cong(y, 0, p) {
        nt::cong_scale(inv, y, 0, p);
        assert(inv * 0 == 0) by (nonlinear_arith);
        nt::cong_sym(inv * y, 1, p);
        nt::cong_trans(1, inv * y, 0, p);
        nt::cong_small(1, 0, p);
    }
    nt::cong_mod(x * inv, p);
    nt::cong_scale(y, f, x * inv, p);
    nt::cong_scale(x, inv * y, 1, p);
    assert(y * f == f * y && y * (x * inv) == x * (inv * y) && x * 1 == x) by (nonlinear_arith);
    nt::cong_trans(f * y, x * (inv * y), x, p);
    lemma_quotient(f, x, y, p);
}

} // verus!
