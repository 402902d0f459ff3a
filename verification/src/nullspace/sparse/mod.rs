//! The sparse lane: fill-reducing elimination for giant inputs.
//!
//! Two phases, one optional dense core:
//!
//! 1. Row-space reduction in free pivot order. A pivot is the sparsest remaining row
//!    and, in it, the column that the fewest active rows hold. The pivot column is
//!    cleared in every other active row and the pivot row is retired, so the retired
//!    rows are triangular against each other and their count is the rank. When the
//!    active block is small and full enough it is finished by dense row echelon form.
//! 2. Leftmost canonicalization. The retired rows are reduced to reduced row echelon
//!    form scanning columns left to right, which gives the leftmost column rank
//!    profile and the canonical basis.
//!
//! Arithmetic on the merge path is Montgomery form. Fill is metered: where live entries
//! would exceed the caller's budget the lane refuses.

use super::profile;
use super::rref;
use super::{is_canonical_basis, is_prime_ok, prime_ok, ModpNullspace, NullspaceError, SparseVec, Triplets};
use crate::linalg;
use crate::mont::Mont;
use crate::nt;
use crate::rowspace;
use gather::build_rows;
use phase1::phase1 as reduce_row_space;
use phase2::phase2 as canonicalize;
use store::RowStore;
use vstd::prelude::*;

mod dense_core;
mod echelon;
pub mod fill;
mod gather;
mod heap;
mod phase1;
mod phase2;
mod state;
mod store;

verus! {

/// Tuning knobs. Every field changes cost, never verdicts.
#[derive(Clone, Copy, Debug)]
pub struct Params {
    /// Refuse when live sparse entries, with the dense core while there is one, exceed
    /// this.
    pub max_entries: usize,
    /// The largest `active_rows * active_cols` of a dense core.
    pub dense_cap: usize,
    /// Switch to the dense core when
    /// `live_entries * dense_inv_density >= active_rows * active_cols`.
    pub dense_inv_density: usize,
}

impl Default for Params {
    fn default() -> (params: Params)
        ensures
            params.max_entries == 0x800_0000,
            params.dense_cap == 0x100_0000,
            params.dense_inv_density == 8,
    {
        Params { max_entries: 0x800_0000, dense_cap: 0x100_0000, dense_inv_density: 8 }
    }
}

/// A refusal for want of budget: the live entries, capped at the largest count, exceed
/// the budget, in phase one or two.
pub open spec fn is_fill_refusal(e: NullspaceError, budget: usize) -> bool {
    e matches NullspaceError::FillBudget { live_entries, max_entries, pivots_done, phase } && {
        &&& max_entries == budget
        &&& live_entries > budget || live_entries == usize::MAX
        &&& phase == 1 || phase == 2
    }
}

/// The refusal for so many live entries: the count is capped at the largest that a
/// machine word holds.
pub open spec fn fill_refusal(live: nat, pivots: nat, phase: u8, budget: usize) -> NullspaceError {
    NullspaceError::FillBudget {
        live_entries: if live <= usize::MAX {
            live as usize
        } else {
            usize::MAX
        },
        max_entries: budget,
        pivots_done: pivots as usize,
        phase,
    }
}

/// The step exceeds the budget, and `e` is the refusal.
pub open spec fn refuses(o: fill::Outcome, e: NullspaceError, phase: u8, budget: usize) -> bool {
    o matches fill::Outcome::Over { live, pivots } && e == fill_refusal(live, pivots, phase, budget)
}

/// Row indices as mathematical integers.
pub open spec fn row_ids(rows: Seq<u32>) -> Seq<int> {
    Seq::new(rows.len(), |k: int| rows[k] as int)
}

/// The free columns, ascending, and the place of each among them.
fn list_free(piv: &Vec<u32>, n: usize) -> (res: (Vec<u32>, Vec<usize>))
    requires
        n <= u32::MAX,
        profile::ascending(piv@),
        forall|j: int| 0 <= j < piv@.len() ==> #[trigger] piv@[j] < n,
    ensures
        res.0@.len() == profile::free_cols(piv@, n as int).len(),
        forall|k: int|
            0 <= k < res.0@.len() ==> #[trigger] res.0@[k] == profile::free_cols(
                piv@,
                n as int,
            )[k],
        res.1@.len() == n,
        forall|c: int|
            0 <= c < n && !profile::is_pivot(piv@, c) ==> #[trigger] res.1@[c] < res.0@.len()
                && res.0@[res.1@[c] as int] == c,
        forall|c: int|
            0 <= c < n && profile::is_pivot(piv@, c) ==> #[trigger] res.1@[c] >= res.0@.len(),
{
    let mut free: Vec<u32> = Vec::new();
    let mut slot: Vec<usize> = Vec::new();
    let mut next: usize = 0;
    let mut c: usize = 0;
    while c < n
        invariant
            c <= n,
            n <= u32::MAX,
            profile::ascending(piv@),
            forall|j: int| 0 <= j < piv@.len() ==> #[trigger] piv@[j] < n,
            next <= piv@.len(),
            forall|i: int| 0 <= i < next ==> #[trigger] piv@[i] < c,
            forall|i: int| next <= i < piv@.len() ==> c <= #[trigger] piv@[i],
            free@.len() <= c,
            free@.len() == profile::free_cols(piv@, c as int).len(),
            forall|k: int|
                0 <= k < free@.len() ==> #[trigger] free@[k] == profile::free_cols(
                    piv@,
                    c as int,
                )[k],
            slot@.len() == c,
            forall|d: int|
                0 <= d < c && !profile::is_pivot(piv@, d) ==> #[trigger] slot@[d] < free@.len()
                    && free@[slot@[d] as int] == d,
            forall|d: int|
                0 <= d < c && profile::is_pivot(piv@, d) ==> #[trigger] slot@[d] == usize::MAX,
        decreases n - c,
    {
        if next < piv.len() && piv[next] as usize == c {
            proof {
                assert(piv@[next as int] == c as int);
                assert(profile::is_pivot(piv@, c as int));
            }
            slot.push(usize::MAX);
            next += 1;
        } else {
            proof {
                if profile::is_pivot(piv@, c as int) {
                    let i: int = choose|i: int| 0 <= i < piv@.len() && #[trigger] piv@[i] == c as int;
                    assert(next <= i);
                    if next < i {
                        assert(piv@[next as int] < piv@[i]);
                    }
                }
            }
            slot.push(free.len());
            free.push(c as u32);
        }
        c += 1;
    }
    (free, slot)
}

/// The entries of a basis vector so far: the negated entries at column `f` of the first
/// `j` rows.
spec fn collected(
    idx: Seq<u32>,
    val: Seq<u64>,
    rr: Seq<Seq<int>>,
    piv: Seq<u32>,
    f: int,
    j: int,
    n: int,
    p: int,
) -> bool {
    &&& profile::is_sparse(idx, val, n, p)
    &&& forall|k: int|
        0 <= k < idx.len() ==> rref::comes_from(piv, rr, f, p, j, #[trigger] idx[k], val[k])
    &&& forall|i: int|
        0 <= i < j && rr[i][f] != 0 ==> profile::is_pivot(idx, #[trigger] piv[i] as int)
}

/// Adding the entry of row `j`.
proof fn lemma_collect(
    idx: Seq<u32>,
    val: Seq<u64>,
    rr: Seq<Seq<int>>,
    piv: Seq<u32>,
    f: int,
    j: int,
    v: u64,
    n: int,
    p: int,
)
    requires
        collected(idx, val, rr, piv, f, j, n, p),
        profile::ascending(piv),
        0 <= j < piv.len(),
        piv[j] < n,
        rr[j][f] != 0,
        v == p - rr[j][f],
        0 < v < p,
    ensures
        collected(idx.push(piv[j]), val.push(v), rr, piv, f, j + 1, n, p),
{
    let idx2: Seq<u32> = idx.push(piv[j]);
    let val2: Seq<u64> = val.push(v);
    assert forall|k: int| 0 <= k < idx.len() implies #[trigger] idx[k] < piv[j] by {
        assert(rref::comes_from(piv, rr, f, p, j, idx[k], val[k]));
        let i: int = choose|i: int|
            0 <= i < j && #[trigger] piv[i] == idx[k] && rr[i][f] != 0 && val[k] == p - rr[i][f];
        assert(piv[i] < piv[j]);
    }
    store::lemma_coef_push(idx, val, piv[j], v, 0);
    assert forall|k: int| 0 <= k < idx2.len() implies rref::comes_from(
        piv,
        rr,
        f,
        p,
        j + 1,
        #[trigger] idx2[k],
        val2[k],
    ) by {
        if k < idx.len() {
            assert(rref::comes_from(piv, rr, f, p, j, idx[k], val[k]));
            let i: int = choose|i: int|
                0 <= i < j && #[trigger] piv[i] == idx[k] && rr[i][f] != 0 && val[k] == p
                    - rr[i][f];
            assert(piv[i] == idx2[k]);
        } else {
            assert(piv[j] == idx2[k]);
        }
    }
    assert forall|i: int| 0 <= i < j + 1 && rr[i][f] != 0 implies profile::is_pivot(
        idx2,
        #[trigger] piv[i] as int,
    ) by {
        if i < j {
            assert(profile::is_pivot(idx, piv[i] as int));
            let k: int = choose|k: int| 0 <= k < idx.len() && #[trigger] idx[k] == piv[i] as int;
            assert(idx2[k] == piv[i] as int);
        } else {
            assert(idx2[idx.len() as int] == piv[j] as int);
        }
    }
}

/// A row without an entry at column `f` adds nothing.
proof fn lemma_collect_none(
    idx: Seq<u32>,
    val: Seq<u64>,
    rr: Seq<Seq<int>>,
    piv: Seq<u32>,
    f: int,
    j: int,
    n: int,
    p: int,
)
    requires
        collected(idx, val, rr, piv, f, j, n, p),
        rr[j][f] == 0,
    ensures
        collected(idx, val, rr, piv, f, j + 1, n, p),
{
    assert forall|k: int| 0 <= k < idx.len() implies rref::comes_from(
        piv,
        rr,
        f,
        p,
        j + 1,
        #[trigger] idx[k],
        val[k],
    ) by {
        assert(rref::comes_from(piv, rr, f, p, j, idx[k], val[k]));
        let i: int = choose|i: int|
            0 <= i < j && #[trigger] piv[i] == idx[k] && rr[i][f] != 0 && val[k] == p - rr[i][f];
        assert(piv[i] == idx[k]);
    }
}

/// Column `f` is among the first `e` columns of the row.
spec fn seen(cols: Seq<u32>, e: int, f: int) -> bool {
    exists|k: int| 0 <= k < e && #[trigger] cols[k] == f
}

/// Adds the entries of reduced row `j` to the basis vectors.
fn collect_row(
    st: &RowStore,
    r: usize,
    piv: &Vec<u32>,
    j: usize,
    free: &Vec<u32>,
    slot: &Vec<usize>,
    idxs: &mut Vec<Vec<u32>>,
    vals: &mut Vec<Vec<u64>>,
    n: usize,
    p: u64,
    Ghost(rr): Ghost<Seq<Seq<int>>>,
)
    requires
        n <= u32::MAX,
        st.wf(n as int, p as int),
        r < st.cols@.len(),
        j < piv@.len(),
        profile::ascending(piv@),
        forall|i: int| 0 <= i < piv@.len() ==> #[trigger] piv@[i] < n,
        j < rr.len(),
        rr[j as int] == st.row(r as int, n as int),
        old(idxs)@.len() == free@.len(),
        old(vals)@.len() == free@.len(),
        slot@.len() == n,
        forall|k: int|
            0 <= k < free@.len() ==> #[trigger] free@[k] < n && !profile::is_pivot(
                piv@,
                free@[k] as int,
            ),
        forall|a: int, b: int| 0 <= a < b < free@.len() ==> free@[a] < free@[b],
        forall|c: int|
            0 <= c < n && !profile::is_pivot(piv@, c) ==> #[trigger] slot@[c] < free@.len()
                && free@[slot@[c] as int] == c,
        forall|c: int|
            0 <= c < n && profile::is_pivot(piv@, c) ==> #[trigger] slot@[c] >= free@.len(),
        forall|k: int|
            0 <= k < free@.len() ==> collected(
                (#[trigger] old(idxs)@[k])@,
                old(vals)@[k]@,
                rr,
                piv@,
                free@[k] as int,
                j as int,
                n as int,
                p as int,
            ),
    ensures
        final(idxs)@.len() == free@.len(),
        final(vals)@.len() == free@.len(),
        forall|k: int|
            0 <= k < free@.len() ==> collected(
                (#[trigger] final(idxs)@[k])@,
                final(vals)@[k]@,
                rr,
                piv@,
                free@[k] as int,
                j + 1,
                n as int,
                p as int,
            ),
{
    let pc: u32 = piv[j];
    let cols: &Vec<u32> = &st.cols[r];
    let rv: &Vec<u64> = &st.vals[r];
    let ghost nn: int = n as int;
    let ghost q: int = p as int;
    assert(st.row_wf(r as int, nn, q));
    let mut e: usize = 0;
    while e < cols.len()
        invariant
            e <= cols@.len(),
            nn == n as int,
            q == p as int,
            cols@ == st.cols@[r as int]@,
            rv@ == st.vals@[r as int]@,
            profile::is_sparse(cols@, rv@, nn, q),
            j < piv@.len(),
            pc == piv@[j as int],
            profile::ascending(piv@),
            forall|i: int| 0 <= i < piv@.len() ==> #[trigger] piv@[i] < n,
            rr[j as int] == profile::expand(cols@, rv@, nn),
            idxs@.len() == free@.len(),
            vals@.len() == free@.len(),
            slot@.len() == n,
            forall|k: int|
                0 <= k < free@.len() ==> #[trigger] free@[k] < n && !profile::is_pivot(
                    piv@,
                    free@[k] as int,
                ),
            forall|a: int, b: int| 0 <= a < b < free@.len() ==> free@[a] < free@[b],
            forall|c: int|
                0 <= c < n && !profile::is_pivot(piv@, c) ==> #[trigger] slot@[c] < free@.len()
                    && free@[slot@[c] as int] == c,
            forall|c: int|
                0 <= c < n && profile::is_pivot(piv@, c) ==> #[trigger] slot@[c] >= free@.len(),
            forall|k: int|
                0 <= k < free@.len() ==> collected(
                    (#[trigger] idxs@[k])@,
                    vals@[k]@,
                    rr,
                    piv@,
                    free@[k] as int,
                    if seen(cols@, e as int, free@[k] as int) {
                        j + 1
                    } else {
                        j as int
                    },
                    nn,
                    q,
                ),
        decreases cols@.len() - e,
    {
        let c: u32 = cols[e];
        proof {
            assert(cols@[e as int] < nn);
            assert(0 < rv@[e as int] < q);
        }
        let s: usize = slot[c as usize];
        let ghost idxs1 = idxs@;
        let ghost vals1 = vals@;
        if s < free.len() {
            let v: u64 = p - rv[e];
            proof {
                if profile::is_pivot(piv@, c as int) {
                    assert(slot@[c as int] >= free@.len());
                }
                assert(free@[s as int] == c);
                if seen(cols@, e as int, c as int) {
                    let k: int = choose|k: int| 0 <= k < e && #[trigger] cols@[k] == c as int;
                    assert(cols@[k] < cols@[e as int]);
                }
                profile::lemma_coef_listed(cols@, rv@, e as int);
                assert(rr[j as int][c as int] == rv@[e as int]);
                assert(collected(
                    idxs1[s as int]@,
                    vals1[s as int]@,
                    rr,
                    piv@,
                    free@[s as int] as int,
                    j as int,
                    nn,
                    q,
                ));
                lemma_collect(
                    idxs1[s as int]@,
                    vals1[s as int]@,
                    rr,
                    piv@,
                    c as int,
                    j as int,
                    v,
                    nn,
                    q,
                );
            }
            idxs[s].push(pc);
            vals[s].push(v);
        }
        proof {
            assert forall|k: int| 0 <= k < free@.len() implies collected(
                (#[trigger] idxs@[k])@,
                vals@[k]@,
                rr,
                piv@,
                free@[k] as int,
                if seen(cols@, e + 1, free@[k] as int) {
                    j + 1
                } else {
                    j as int
                },
                nn,
                q,
            ) by {
                assert(collected(
                    idxs1[k]@,
                    vals1[k]@,
                    rr,
                    piv@,
                    free@[k] as int,
                    if seen(cols@, e as int, free@[k] as int) {
                        j + 1
                    } else {
                        j as int
                    },
                    nn,
                    q,
                ));
                if free@[k] == c {
                    assert(!profile::is_pivot(piv@, free@[k] as int));
                    assert(slot@[c as int] < free@.len());
                    if k < s {
                        assert(free@[k] < free@[s as int]);
                    } else if s < k {
                        assert(free@[s as int] < free@[k]);
                    }
                    assert(cols@[e as int] == free@[k] as int);
                    assert(seen(cols@, e + 1, free@[k] as int));
                } else {
                    if s < free@.len() {
                        assert(k != s);
                        assert(idxs@[k] == idxs1[k]);
                        assert(vals@[k] == vals1[k]);
                    }
                    if seen(cols@, e as int, free@[k] as int) {
                        let l: int = choose|l: int| 0 <= l < e && #[trigger] cols@[l] == free@[k] as int;
                        assert(cols@[l] == free@[k] as int);
                        assert(seen(cols@, e + 1, free@[k] as int));
                    }
                    if seen(cols@, e + 1, free@[k] as int) {
                        let l: int = choose|l: int|
                            0 <= l < e + 1 && #[trigger] cols@[l] == free@[k] as int;
                        assert(l < e);
                        assert(seen(cols@, e as int, free@[k] as int));
                    }
                }
            }
        }
        e += 1;
    }
    proof {
        assert forall|k: int| 0 <= k < free@.len() implies collected(
            (#[trigger] idxs@[k])@,
            vals@[k]@,
            rr,
            piv@,
            free@[k] as int,
            j + 1,
            nn,
            q,
        ) by {
            let f: int = free@[k] as int;
            if !seen(cols@, e as int, f) {
                assert(free@[k] < n);
                if profile::is_pivot(cols@, f) {
                    let l: int = choose|l: int| 0 <= l < cols@.len() && #[trigger] cols@[l] == f;
                    assert(seen(cols@, e as int, f));
                }
                store::lemma_coef_absent(cols@, rv@, f);
                lemma_collect_none(idxs@[k]@, vals@[k]@, rr, piv@, f, j as int, nn, q);
            }
        }
    }
}

/// The canonical basis, read off the reduced rows.
fn extract_basis(
    st: &RowStore,
    piv: &Vec<u32>,
    rrows: &Vec<usize>,
    n: usize,
    p: u64,
) -> (basis: Vec<SparseVec>)
    requires
        p > 1,
        n <= u32::MAX,
        st.wf(n as int, p as int),
        piv@.len() == rrows@.len(),
        profile::ascending(piv@),
        forall|i: int| 0 <= i < piv@.len() ==> #[trigger] piv@[i] < n,
        forall|i: int| 0 <= i < rrows@.len() ==> #[trigger] rrows@[i] < st.cols@.len(),
    ensures
        basis@.len() == profile::free_cols(piv@, n as int).len(),
        rref::is_rref(
            phase2::reduced_rows(st.rows(n as int), rrows@),
            piv@,
            n as int,
            p as int,
        ) ==> forall|k: int|
            0 <= k < basis@.len() ==> profile::is_sparse(
                (#[trigger] basis@[k]).idx@,
                basis@[k].val@,
                n as int,
                p as int,
            ) && profile::expand(basis@[k].idx@, basis@[k].val@, n as int) == rref::free_vector(
                phase2::reduced_rows(st.rows(n as int), rrows@),
                piv@,
                n as int,
                p as int,
                profile::free_cols(piv@, n as int)[k],
            ),
{
    let ghost nn: int = n as int;
    let ghost q: int = p as int;
    let ghost rr = phase2::reduced_rows(st.rows(nn), rrows@);
    let (free, slot): (Vec<u32>, Vec<usize>) = list_free(piv, n);
    proof {
        profile::lemma_free_cols(piv@, nn);
        assert forall|k: int| 0 <= k < free@.len() implies #[trigger] free@[k] < n
            && !profile::is_pivot(piv@, free@[k] as int) by {
            assert(free@[k] == profile::free_cols(piv@, nn)[k]);
        }
        assert forall|a: int, b: int| 0 <= a < b < free@.len() implies free@[a] < free@[b] by {
            assert(free@[a] == profile::free_cols(piv@, nn)[a]);
            assert(free@[b] == profile::free_cols(piv@, nn)[b]);
        }
    }
    let mut idxs: Vec<Vec<u32>> = Vec::new();
    let mut vals: Vec<Vec<u64>> = Vec::new();
    let mut k: usize = 0;
    while k < free.len()
        invariant
            k <= free@.len(),
            idxs@.len() == k,
            vals@.len() == k,
            forall|i: int|
                0 <= i < k ==> collected(
                    (#[trigger] idxs@[i])@,
                    vals@[i]@,
                    rr,
                    piv@,
                    free@[i] as int,
                    0,
                    nn,
                    q,
                ),
        decreases free@.len() - k,
    {
        idxs.push(Vec::new());
        vals.push(Vec::new());
        k += 1;
    }
    let mut j: usize = 0;
    while j < rrows.len()
        invariant
            j <= rrows@.len(),
            n <= u32::MAX,
            nn == n as int,
            q == p as int,
            rr == phase2::reduced_rows(st.rows(nn), rrows@),
            st.wf(nn, q),
            piv@.len() == rrows@.len(),
            profile::ascending(piv@),
            forall|i: int| 0 <= i < piv@.len() ==> #[trigger] piv@[i] < n,
            forall|i: int| 0 <= i < rrows@.len() ==> #[trigger] rrows@[i] < st.cols@.len(),
            idxs@.len() == free@.len(),
            vals@.len() == free@.len(),
            slot@.len() == n,
            forall|k: int|
                0 <= k < free@.len() ==> #[trigger] free@[k] < n && !profile::is_pivot(
                    piv@,
                    free@[k] as int,
                ),
            forall|a: int, b: int| 0 <= a < b < free@.len() ==> free@[a] < free@[b],
            forall|c: int|
                0 <= c < n && !profile::is_pivot(piv@, c) ==> #[trigger] slot@[c] < free@.len()
                    && free@[slot@[c] as int] == c,
            forall|c: int|
                0 <= c < n && profile::is_pivot(piv@, c) ==> #[trigger] slot@[c] >= free@.len(),
            forall|i: int|
                0 <= i < free@.len() ==> collected(
                    (#[trigger] idxs@[i])@,
                    vals@[i]@,
                    rr,
                    piv@,
                    free@[i] as int,
                    j as int,
                    nn,
                    q,
                ),
        decreases rrows@.len() - j,
    {
        assert(rrows@[j as int] < st.cols@.len());
        collect_row(
            st,
            rrows[j],
            piv,
            j,
            &free,
            &slot,
            &mut idxs,
            &mut vals,
            n,
            p,
            Ghost(rr),
        );
        j += 1;
    }
    let mut basis: Vec<SparseVec> = Vec::new();
    k = 0;
    while k < free.len()
        invariant
            k <= free@.len(),
            p > 1,
            n <= u32::MAX,
            nn == n as int,
            q == p as int,
            piv@.len() == j,
            rr.len() == j,
            idxs@.len() == free@.len(),
            vals@.len() == free@.len(),
            free@.len() == profile::free_cols(piv@, nn).len(),
            forall|i: int|
                0 <= i < free@.len() ==> #[trigger] free@[i] == profile::free_cols(piv@, nn)[i],
            forall|i: int|
                0 <= i < free@.len() ==> #[trigger] free@[i] < n && !profile::is_pivot(
                    piv@,
                    free@[i] as int,
                ),
            forall|i: int|
                k <= i < free@.len() ==> collected(
                    (#[trigger] idxs@[i])@,
                    vals@[i]@,
                    rr,
                    piv@,
                    free@[i] as int,
                    j as int,
                    nn,
                    q,
                ),
            basis@.len() == k,
            rref::is_rref(rr, piv@, nn, q) ==> forall|i: int|
                0 <= i < k ==> profile::is_sparse(
                    (#[trigger] basis@[i]).idx@,
                    basis@[i].val@,
                    nn,
                    q,
                ) && profile::expand(basis@[i].idx@, basis@[i].val@, nn) == rref::free_vector(
                    rr,
                    piv@,
                    nn,
                    q,
                    profile::free_cols(piv@, nn)[i],
                ),
        decreases free@.len() - k,
    {
        let mut idx: Vec<u32> = Vec::new();
        let mut val: Vec<u64> = Vec::new();
        let ghost idxs1 = idxs@;
        let ghost vals1 = vals@;
        std::mem::swap(&mut idx, &mut idxs[k]);
        std::mem::swap(&mut val, &mut vals[k]);
        proof {
            assert(collected(
                idxs1[k as int]@,
                vals1[k as int]@,
                rr,
                piv@,
                free@[k as int] as int,
                j as int,
                nn,
                q,
            ));
            if rref::is_rref(rr, piv@, nn, q) {
                rref::lemma_listed_vector(rr, piv@, nn, q, free@[k as int], idx@, val@);
            }
            assert forall|i: int| k + 1 <= i < free@.len() implies collected(
                (#[trigger] idxs@[i])@,
                vals@[i]@,
                rr,
                piv@,
                free@[i] as int,
                j as int,
                nn,
                q,
            ) by {
                assert(idxs@[i] == idxs1[i]);
                assert(vals@[i] == vals1[i]);
            }
        }
        idx.push(free[k]);
        val.push(1);
        basis.push(SparseVec { idx, val });
        k += 1;
    }
    basis
}

/// The canonical nullspace of `a` modulo `p`, engineered for giant sparse inputs. The
/// verdict is that of the dense reference. Whether and where the budget is exceeded
/// follows from the order of the pivots ([`fill::run`]); a matrix with no more than
/// `max_entries` places never exceeds it.
pub fn nullspace_mod_p(a: Triplets<'_>, p: u64, params: Params) -> (res: Result<
    ModpNullspace,
    NullspaceError,
>)
    requires
        is_prime_ok(p as int) && a.in_range() ==> a.cols <= u32::MAX,
    ensures
        !is_prime_ok(p as int) <==> res == Err::<ModpNullspace, NullspaceError>(
            NullspaceError::BadPrime { prime: p },
        ),
        is_prime_ok(p as int) && !a.in_range() ==> exists|i: int|
            #[trigger] a.first_out_of_range(i) && res == Err::<ModpNullspace, NullspaceError>(
                NullspaceError::IndexOutOfRange {
                    row: a.entries@[i].0,
                    col: a.entries@[i].1,
                    rows: a.rows,
                    cols: a.cols,
                },
            ),
        is_prime_ok(p as int) && a.in_range() && res is Err ==> is_fill_refusal(
            res->Err_0,
            params.max_entries,
        ) && a.rows * a.cols > params.max_entries,
        nt::is_prime(p as int) && is_prime_ok(p as int) && a.in_range() ==> match fill::run(
            a.mat(),
            a.cols as int,
            p as int,
            params,
        ) {
            fill::Verdict::Done(rows) => res matches Ok(ns) && row_ids(ns.witness_rows@) == rows,
            fill::Verdict::Over { live, pivots, phase } => res == Err::<
                ModpNullspace,
                NullspaceError,
            >(fill_refusal(live, pivots, phase, params.max_entries)),
        },
        res matches Ok(ns) ==> (nt::is_prime(p as int) ==> ns.is_nullspace_of(
            a.mat(),
            a.cols as int,
            p as int,
        )),
{
    if !prime_ok(p) {
        return Err(NullspaceError::BadPrime { prime: p });
    }
    match a.validate() {
        Err(e) => {
            return Err(e);
        },
        Ok(()) => {},
    }
    let n: usize = a.cols;
    let ghost q: int = p as int;
    let ghost nn: int = n as int;
    let mont: Mont = Mont::new(p);
    let mut st: RowStore = match build_rows(a, p, params.max_entries) {
        Err(e) => {
            return Err(e);
        },
        Ok(st) => st,
    };
    let ghost st0 = st;
    let ghost org: Seq<Seq<int>> = Seq::new(
        st0.cols@.len(),
        |s: int| a.mat()[st0.orig@[s] as int],
    );
    proof {
        lemma_org(a, &st0, org, nn, q);
        assert(st0.cols@.len() * n <= a.rows * n) by (nonlinear_arith)
            requires
                st0.cols@.len() <= a.rows,
                n >= 0,
        ;
    }
    let done: Vec<usize> = match reduce_row_space(&mut st, n, &mont, &params, Ghost(org)) {
        Err(e) => {
            return Err(e);
        },
        Ok(found) => {
            proof {
                if nt::is_prime(q) {
                    rowspace::lemma_triangular_independent(
                        st.rows(nn),
                        state::ints(found.0@),
                        found.1@,
                        nn,
                        q,
                    );
                }
            }
            found.0
        },
    };
    let ghost st1 = st;
    let (pivot_cols, rrows): (Vec<u32>, Vec<usize>) = match canonicalize(
        &mut st,
        &done,
        n,
        &mont,
        &params,
    ) {
        Err(e) => {
            return Err(e);
        },
        Ok(found) => found,
    };
    let rank: usize = pivot_cols.len();
    let mut witness_rows: Vec<u32> = Vec::new();
    let mut k: usize = 0;
    while k < done.len()
        invariant
            k <= done@.len(),
            st.orig@.len() == st.cols@.len(),
            forall|i: int| 0 <= i < done@.len() ==> #[trigger] done@[i] < st.cols@.len(),
            witness_rows@.len() == k,
            forall|i: int| 0 <= i < k ==> #[trigger] witness_rows@[i] == st.orig@[done@[i] as int],
        decreases done@.len() - k,
    {
        assert(done@[k as int] < st.cols@.len());
        witness_rows.push(st.orig[done[k]]);
        k += 1;
    }
    let basis: Vec<SparseVec> = extract_basis(&st, &pivot_cols, &rrows, n, p);
    let ns: ModpNullspace = ModpNullspace { prime: p, rank, pivot_cols, witness_rows, basis };
    proof {
        if nt::is_prime(q) {
            let ids: Seq<int> = gather::originals(&st0);
            let s1: Seq<int> = state::ints(done@);
            assert(row_ids(ns.witness_rows@) =~= Seq::new(s1.len(), |i: int| ids[s1[i]])) by {
                assert forall|i: int| 0 <= i < done@.len() implies #[trigger] done@[i]
                    < st0.cols@.len() by {}
            }
            lemma_sparse_verdict(a, &st0, &st1, &st, org, done@, rrows@, ns, nn, q);
        }
    }
    Ok(ns)
}

/// The stored rows stand for the rows of the matrix that they name.
proof fn lemma_org(a: Triplets<'_>, st: &RowStore, org: Seq<Seq<int>>, n: int, p: int)
    requires
        p > 0,
        n == a.cols,
        st.wf(n, p),
        gather::stores(st, a, a.rows as int, p),
        org == Seq::new(st.cols@.len(), |s: int| a.mat()[st.orig@[s] as int]),
    ensures
        org.len() == st.cols@.len(),
        linalg::shaped(org, n),
        forall|t: int, j: int|
            0 <= t < org.len() && 0 <= j < n ==> nt::cong(
                #[trigger] st.rows(n)[t][j],
                org[t][j],
                p,
            ),
        forall|y: Seq<int>|
            y.len() == n ==> (#[trigger] linalg::in_kernel(org, y, p) <==> linalg::in_kernel(
                a.mat(),
                y,
                p,
            )),
{
    assert forall|t: int, j: int| 0 <= t < org.len() && 0 <= j < n implies nt::cong(
        #[trigger] st.rows(n)[t][j],
        org[t][j],
        p,
    ) by {
        assert(st.orig@[t] < a.rows);
        assert(gather::stands_for(st, t, a, st.orig@[t] as int, p));
        assert(nt::cong(
            st.row(t, n)[j],
            profile::entry_sum(a.entries@, st.orig@[t] as int, j),
            p,
        ));
    }
    assert(linalg::shaped(org, n)) by {
        assert forall|t: int| 0 <= t < org.len() implies (#[trigger] org[t]).len() == n by {
            assert(st.orig@[t] < a.rows);
        }
    }
    assert forall|y: Seq<int>| y.len() == n implies (#[trigger] linalg::in_kernel(org, y, p)
        <==> linalg::in_kernel(a.mat(), y, p)) by {
        if linalg::in_kernel(a.mat(), y, p) {
            assert forall|t: int| 0 <= t < org.len() implies linalg::vanishes(
                #[trigger] org[t],
                y,
                p,
            ) by {
                assert(st.orig@[t] < a.rows);
                assert(linalg::vanishes(a.mat()[st.orig@[t] as int], y, p));
            }
        }
        if linalg::in_kernel(org, y, p) {
            assert forall|r: int| 0 <= r < a.mat().len() implies linalg::vanishes(
                #[trigger] a.mat()[r],
                y,
                p,
            ) by {
                let row: Seq<int> = a.mat()[r];
                assert(gather::zero_row(a, r, p) || gather::is_stored(st, a, r, p));
                if gather::zero_row(a, r, p) {
                    assert forall|c: int| 0 <= c < row.len() implies nt::cong(
                        #[trigger] row[c],
                        zeros(n)[c],
                        p,
                    ) by {
                        assert(nt::cong(profile::entry_sum(a.entries@, r, c), 0, p));
                    }
                    linalg::lemma_dot_same(row, zeros(n), y, p, n);
                    linalg::lemma_dot_zero_row(zeros(n), y, n);
                } else {
                    let s: int = choose|s: int|
                        0 <= s < st.cols@.len() && #[trigger] gather::stands_for(st, s, a, r, p);
                    let stored: Seq<int> = st.row(s, n);
                    assert forall|c: int| 0 <= c < row.len() implies nt::cong(
                        #[trigger] row[c],
                        stored[c],
                        p,
                    ) by {
                        assert(nt::cong(
                            st.row(s, n)[c],
                            profile::entry_sum(a.entries@, r, c),
                            p,
                        ));
                        nt::cong_sym(stored[c], row[c], p);
                    }
                    linalg::lemma_dot_same(row, stored, y, p, n);
                    assert forall|c: int| 0 <= c < stored.len() implies nt::cong(
                        #[trigger] stored[c],
                        org[s][c],
                        p,
                    ) by {
                        assert(nt::cong(st.rows(n)[s][c], org[s][c], p));
                    }
                    linalg::lemma_dot_same(stored, org[s], y, p, n);
                    assert(linalg::vanishes(org[s], y, p));
                    nt::cong_trans(
                        linalg::dot(row, y),
                        linalg::dot(stored, y),
                        linalg::dot(org[s], y),
                        p,
                    );
                    nt::cong_trans(linalg::dot(row, y), linalg::dot(org[s], y), 0, p);
                }
            }
        }
    }
}

/// The zero vector.
spec fn zeros(n: int) -> Seq<int> {
    Seq::new(n as nat, |c: int| 0int)
}

/// What the two phases have found is the nullspace of the matrix.
proof fn lemma_sparse_verdict(
    a: Triplets<'_>,
    st0: &RowStore,
    st1: &RowStore,
    st: &RowStore,
    org: Seq<Seq<int>>,
    done: Seq<usize>,
    rrows: Seq<usize>,
    ns: ModpNullspace,
    n: int,
    p: int,
)
    requires
        nt::is_prime(p),
        n == a.cols,
        st0.wf(n, p),
        st1.wf(n, p),
        gather::stores(st0, a, a.rows as int, p),
        org == Seq::new(st0.cols@.len(), |s: int| a.mat()[st0.orig@[s] as int]),
        st1.cols@.len() == st0.cols@.len(),
        st.orig == st0.orig,
        done.no_duplicates(),
        forall|k: int| 0 <= k < done.len() ==> #[trigger] done[k] < st0.cols@.len(),
        forall|t: int|
            0 <= t < st1.cols@.len() && !state::ints(done).contains(t) ==> (
            #[trigger] st1.cols@[t])@.len() == 0,
        linalg::elimination(st1.rows(n), org, state::ints(done), n, p),
        ns.prime == p,
        ns.rank == ns.pivot_cols@.len(),
        ns.pivot_cols@.len() == rrows.len(),
        rrows.len() == done.len(),
        rref::is_rref(phase2::reduced_rows(st.rows(n), rrows), ns.pivot_cols@, n, p),
        forall|y: Seq<int>|
            y.len() == n ==> (#[trigger] linalg::in_kernel(
                phase2::reduced_rows(st.rows(n), rrows),
                y,
                p,
            ) <==> linalg::kills(st1.rows(n), state::ints(done), y, p)),
        ns.witness_rows@.len() == done.len(),
        forall|i: int|
            0 <= i < done.len() ==> #[trigger] ns.witness_rows@[i] == st.orig@[done[i] as int],
        ns.basis@.len() == profile::free_cols(ns.pivot_cols@, n).len(),
        forall|k: int|
            0 <= k < ns.basis@.len() ==> profile::is_sparse(
                (#[trigger] ns.basis@[k]).idx@,
                ns.basis@[k].val@,
                n,
                p,
            ) && profile::expand(ns.basis@[k].idx@, ns.basis@[k].val@, n) == rref::free_vector(
                phase2::reduced_rows(st.rows(n), rrows),
                ns.pivot_cols@,
                n,
                p,
                profile::free_cols(ns.pivot_cols@, n)[k],
            ),
    ensures
        ns.is_nullspace_of(a.mat(), n, p),
{
    let mat: Seq<Seq<int>> = a.mat();
    let d: Seq<int> = state::ints(done);
    let rr: Seq<Seq<int>> = phase2::reduced_rows(st.rows(n), rrows);
    lemma_org(a, st0, org, n, p);
    assert forall|k: int| 0 <= k < d.len() implies 0 <= #[trigger] d[k] < st1.rows(n).len() by {
        assert(done[k] < st0.cols@.len());
    }
    assert forall|t: int, c: int|
        0 <= t < st1.rows(n).len() && !d.contains(t) && 0 <= c < n implies #[trigger] st1.rows(n)[t][c]
        == 0 by {
        assert(st1.cols@[t]@.len() == 0);
        assert(profile::coef(st1.cols@[t]@, st1.vals@[t]@, c) == 0);
    }
    assert forall|y: Seq<int>| y.len() == n implies (#[trigger] linalg::in_kernel(mat, y, p)
        <==> linalg::in_kernel(rr, y, p)) && (linalg::kills(org, d, y, p) <==> linalg::in_kernel(
        mat,
        y,
        p,
    )) by {
        linalg::lemma_elimination_end(st1.rows(n), org, d, n, p, y);
        assert(linalg::in_kernel(org, y, p) <==> linalg::in_kernel(mat, y, p));
    }
    rref::lemma_rref_profile(mat, rr, ns.pivot_cols@, n, p);
    profile::lemma_free_cols(ns.pivot_cols@, n);
    assert(is_canonical_basis(mat, n, p, ns.pivot_cols@, ns.basis@)) by {
        let frees = profile::free_cols(ns.pivot_cols@, n);
        assert forall|i: int| 0 <= i < ns.basis@.len() implies profile::is_sparse(
            (#[trigger] ns.basis@[i]).idx@,
            ns.basis@[i].val@,
            n,
            p,
        ) && profile::is_basis_vector(
            mat,
            n,
            p,
            ns.pivot_cols@,
            frees[i],
            profile::expand(ns.basis@[i].idx@, ns.basis@[i].val@, n),
        ) by {
            let fv: Seq<int> = rref::free_vector(rr, ns.pivot_cols@, n, p, frees[i]);
        }
    }
    let wit: Seq<u32> = ns.witness_rows@;
    let w: Seq<int> = wit.map_values(|w: u32| w as int);
    assert(wit.no_duplicates()) by {
        assert forall|i: int, j: int|
            0 <= i < wit.len() && 0 <= j < wit.len() && i != j implies wit[i] != wit[j] by {
            assert(done[i] != done[j]);
            assert(done[i] < st0.cols@.len() && done[j] < st0.cols@.len());
            if done[i] < done[j] {
                assert(st0.orig@[done[i] as int] < st0.orig@[done[j] as int]);
            } else {
                assert(st0.orig@[done[j] as int] < st0.orig@[done[i] as int]);
            }
        }
    }
    assert forall|i: int| 0 <= i < wit.len() implies #[trigger] wit[i] < mat.len() by {
        assert(done[i] < st0.cols@.len());
        assert(st0.orig@[done[i] as int] < a.rows);
    }
    assert forall|y: Seq<int>| y.len() == n && linalg::kills(mat, w, y, p) implies
    #[trigger] linalg::in_kernel(mat, y, p) by {
        assert forall|k: int| 0 <= k < d.len() implies linalg::vanishes(
            org[#[trigger] d[k]],
            y,
            p,
        ) by {
            assert(done[k] < st0.cols@.len());
            assert(w[k] == st0.orig@[done[k] as int]);
            assert(linalg::vanishes(mat[w[k]], y, p));
        }
        assert(linalg::kills(org, d, y, p));
    }
}

} // verus!
