//! The scalar reference: dense Gauss-Jordan elimination to reduced row echelon form,
//! with leftmost column scanning.

use super::arith::{addmod, invmod, mulmod, residue, submod};
use super::lowest;
use super::profile;
use super::rref;
use super::{is_canonical_basis, is_prime_ok, prime_ok, ModpNullspace, NullspaceError, SparseVec, Triplets};
use crate::linalg;
use crate::nt;
use vstd::prelude::*;

verus! {

/// Guard on `rows * cols` for the dense matrix.
pub const DENSE_GUARD: usize = 0x400_0000;

/// The rows of a dense matrix, as mathematical integers.
pub open spec fn dense(m: Seq<Vec<u64>>) -> Seq<Seq<int>> {
    Seq::new(m.len(), |i: int| Seq::new(m[i]@.len(), |j: int| m[i]@[j] as int))
}

/// A dense matrix of `rows` by `cols` residues modulo `p`.
pub open spec fn is_dense(m: Seq<Vec<u64>>, rows: int, cols: int, p: int) -> bool {
    &&& m.len() == rows
    &&& forall|i: int| 0 <= i < rows ==> (#[trigger] m[i])@.len() == cols
    &&& forall|i: int, j: int| 0 <= i < rows && 0 <= j < cols ==> #[trigger] m[i]@[j] < p
}

/// A matrix of zeros.
pub(crate) fn zero_matrix(m: usize, n: usize) -> (mat: Vec<Vec<u64>>)
    ensures
        mat@.len() == m,
        forall|i: int| 0 <= i < m ==> (#[trigger] mat@[i])@.len() == n,
        forall|i: int, j: int| 0 <= i < m && 0 <= j < n ==> #[trigger] mat@[i]@[j] == 0,
{
    let mut mat: Vec<Vec<u64>> = Vec::new();
    let mut i: usize = 0;
    while i < m
        invariant
            i <= m,
            mat@.len() == i,
            forall|k: int| 0 <= k < i ==> (#[trigger] mat@[k])@.len() == n,
            forall|k: int, j: int| 0 <= k < i && 0 <= j < n ==> #[trigger] mat@[k]@[j] == 0,
        decreases m - i,
    {
        let row: Vec<u64> = vec![0u64; n];
        mat.push(row);
        i += 1;
    }
    mat
}

/// The dense matrix of residues that the triplets denote.
fn dense_rows(a: Triplets<'_>, p: u64) -> (mat: Vec<Vec<u64>>)
    requires
        p > 0,
        a.in_range(),
    ensures
        is_dense(mat@, a.rows as int, a.cols as int, p as int),
        forall|r: int, c: int|
            0 <= r < a.rows && 0 <= c < a.cols ==> nt::cong(
                #[trigger] mat@[r]@[c] as int,
                profile::entry_sum(a.entries@, r, c),
                p as int,
            ),
{
    let m: usize = a.rows;
    let n: usize = a.cols;
    let mut mat: Vec<Vec<u64>> = zero_matrix(m, n);
    let mut i: usize = 0;
    proof {
        nt::cong_refl(0, p as int);
        assert(a.entries@.take(0) =~= Seq::empty());
    }
    while i < a.entries.len()
        invariant
            p > 0,
            m == a.rows,
            n == a.cols,
            a.in_range(),
            i <= a.entries@.len(),
            is_dense(mat@, m as int, n as int, p as int),
            forall|r: int, c: int|
                0 <= r < m && 0 <= c < n ==> nt::cong(
                    #[trigger] mat@[r]@[c] as int,
                    profile::entry_sum(a.entries@.take(i as int), r, c),
                    p as int,
                ),
        decreases a.entries@.len() - i,
    {
        let e: (u32, u32, i64) = a.entries[i];
        let r: usize = e.0 as usize;
        let c: usize = e.1 as usize;
        let w: u64 = residue(e.2, p);
        let cell: u64 = addmod(mat[r][c], w, p);
        let ghost prev = mat@;
        mat[r][c] = cell;
        proof {
            let before = a.entries@.take(i as int);
            let after = a.entries@.take(i + 1);
            assert(after.drop_last() =~= before);
            assert(after.last() == e);
            assert forall|s: int, d: int| 0 <= s < m && 0 <= d < n implies nt::cong(
                #[trigger] mat@[s]@[d] as int,
                profile::entry_sum(after, s, d),
                p as int,
            ) by {
                let old_cell: int = prev[s]@[d] as int;
                assert(nt::cong(old_cell, profile::entry_sum(before, s, d), p as int));
                if s == r && d == c {
                    nt::cong_mod(old_cell + w, p as int);
                    nt::cong_mod(e.2 as int, p as int);
                    nt::cong_plus(
                        old_cell,
                        profile::entry_sum(before, s, d),
                        w as int,
                        e.2 as int,
                        p as int,
                    );
                    nt::cong_trans(
                        cell as int,
                        old_cell + w,
                        profile::entry_sum(after, s, d),
                        p as int,
                    );
                }
            }
        }
        i += 1;
    }
    assert(a.entries@.take(i as int) =~= a.entries@);
    mat
}

/// Scales the coordinates from `col` on by `u`.
fn scale_row(row: &mut Vec<u64>, col: usize, u: u64, p: u64)
    requires
        p > 0,
        col <= old(row)@.len(),
    ensures
        final(row)@.len() == old(row)@.len(),
        forall|c: int| 0 <= c < col ==> #[trigger] final(row)@[c] == old(row)@[c],
        forall|c: int|
            col <= c < old(row)@.len() ==> #[trigger] final(row)@[c] == (old(row)@[c] * u)
                % p as int,
{
    let mut c: usize = col;
    let ghost start = row@;
    while c < row.len()
        invariant
            p > 0,
            col <= c <= row@.len(),
            row@.len() == start.len(),
            forall|d: int| 0 <= d < col ==> #[trigger] row@[d] == start[d],
            forall|d: int| col <= d < c ==> #[trigger] row@[d] == (start[d] * u) % p as int,
            forall|d: int| c <= d < row@.len() ==> #[trigger] row@[d] == start[d],
        decreases row@.len() - c,
    {
        let v: u64 = mulmod(row[c], u, p);
        row[c] = v;
        c += 1;
    }
}

/// Takes `f` times the pivot row from the coordinates from `col` on.
pub(crate) fn eliminate_row(row: &mut Vec<u64>, pivot: &Vec<u64>, col: usize, f: u64, p: u64)
    requires
        p > 0,
        col <= old(row)@.len(),
        old(row)@.len() == pivot@.len(),
        forall|c: int| 0 <= c < old(row)@.len() ==> #[trigger] old(row)@[c] < p,
    ensures
        final(row)@.len() == old(row)@.len(),
        forall|c: int| 0 <= c < col ==> #[trigger] final(row)@[c] == old(row)@[c],
        forall|c: int|
            col <= c < old(row)@.len() ==> #[trigger] final(row)@[c] == (old(row)@[c] - (f
                * pivot@[c]) % p as int) % p as int,
{
    let mut c: usize = col;
    let ghost start = row@;
    while c < row.len()
        invariant
            p > 0,
            col <= c <= row@.len(),
            row@.len() == start.len(),
            row@.len() == pivot@.len(),
            forall|d: int| 0 <= d < start.len() ==> #[trigger] start[d] < p,
            forall|d: int| 0 <= d < col ==> #[trigger] row@[d] == start[d],
            forall|d: int|
                col <= d < c ==> #[trigger] row@[d] == (start[d] - (f * pivot@[d]) % p as int)
                    % p as int,
            forall|d: int| c <= d < row@.len() ==> #[trigger] row@[d] == start[d],
        decreases row@.len() - c,
    {
        let d: u64 = mulmod(f, pivot[c], p);
        assert(row@[c as int] == start[c as int]);
        let v: u64 = submod(row[c], d, p);
        row[c] = v;
        c += 1;
    }
}

/// The multiples of the pivot row that leave the other rows.
spec fn factors(m: Seq<Vec<u64>>, col: int) -> Seq<int> {
    Seq::new(m.len(), |t: int| m[t]@[col] as int)
}

/// One pivot step: normalises row `pr` at column `col` and clears the column in every
/// other row.
fn pivot_step(mat: &mut Vec<Vec<u64>>, m: usize, n: usize, pr: usize, col: usize, p: u64)
    requires
        p > 1,
        is_dense(old(mat)@, m as int, n as int, p as int),
        pr < m,
        col < n,
    ensures
        is_dense(final(mat)@, m as int, n as int, p as int),
        nt::is_prime(p as int) && old(mat)@[pr as int]@[col as int] != 0 && (forall|c: int|
            0 <= c < col ==> #[trigger] old(mat)@[pr as int]@[c] == 0) ==> {
            &&& exists|u: int, v: int|
                nt::cong(#[trigger] (v * u), 1, p as int) && linalg::is_scaled(
                    dense(final(mat)@)[pr as int],
                    dense(old(mat)@)[pr as int],
                    u,
                    p as int,
                )
            &&& forall|t: int|
                0 <= t < m && t != pr ==> linalg::is_axpy(
                    #[trigger] dense(final(mat)@)[t],
                    dense(old(mat)@)[t],
                    dense(final(mat)@)[pr as int],
                    old(mat)@[t]@[col as int] as int,
                    p as int,
                )
            &&& final(mat)@[pr as int]@[col as int] == 1
            &&& forall|t: int| 0 <= t < m && t != pr ==> (#[trigger] final(mat)@[t])@[col as int] == 0
            &&& forall|t: int, c: int|
                0 <= t < m && 0 <= c < n && (c < col || old(mat)@[pr as int]@[c] == 0)
                    ==> #[trigger] final(mat)@[t]@[c] == old(mat)@[t]@[c]
        },
{
    let ghost org = mat@;
    let ghost q: int = p as int;
    let inv: u64 = invmod(mat[pr][col], p);
    scale_row(&mut mat[pr], col, inv, p);
    let pivot: Vec<u64> = mat[pr].clone();
    let ghost mid = mat@;
    assert(pivot@ =~= mid[pr as int]@);
    proof {
        assert forall|i: int, j: int| 0 <= i < m && 0 <= j < n implies #[trigger] mid[i]@[j] < p by {
            if i == pr && j >= col {
                nt::cong_mod(org[i]@[j] * inv, q);
            }
        }
    }
    let mut t: usize = 0;
    while t < m
        invariant
            p > 1,
            q == p as int,
            t <= m,
            pr < m,
            col < n,
            is_dense(mid, m as int, n as int, q),
            mat@.len() == m,
            pivot@ == mid[pr as int]@,
            forall|s: int| 0 <= s < m && (s == pr || s >= t) ==> #[trigger] mat@[s] == mid[s],
            forall|s: int| 0 <= s < t && s != pr ==> (#[trigger] mat@[s])@.len() == n,
            forall|s: int, c: int|
                0 <= s < t && s != pr && 0 <= c < col ==> #[trigger] mat@[s]@[c] == mid[s]@[c],
            forall|s: int, c: int|
                0 <= s < t && s != pr && col <= c < n ==> #[trigger] mat@[s]@[c] == (mid[s]@[c] - (
                mid[s]@[col as int] * pivot@[c]) % q) % q,
        decreases m - t,
    {
        if t != pr {
            let f: u64 = mat[t][col];
            if f != 0 {
                let ghost prev = mat@;
                eliminate_row(&mut mat[t], &pivot, col, f, p);
                assert(forall|s: int| 0 <= s < m && s != t ==> mat@[s] == prev[s]);
            } else {
                proof {
                    assert forall|c: int| col <= c < n implies #[trigger] mat@[t as int]@[c] == (
                    mid[t as int]@[c] - (mid[t as int]@[col as int] * pivot@[c]) % q) % q by {
                        assert(0 * pivot@[c] == 0) by (nonlinear_arith);
                        nt::cong_mod(mid[t as int]@[c] as int, q);
                        nt::cong_small(
                            mid[t as int]@[c] as int % q,
                            mid[t as int]@[c] as int,
                            q,
                        );
                    }
                }
            }
        }
        t += 1;
    }
    proof {
        assert forall|i: int, j: int| 0 <= i < m && 0 <= j < n implies #[trigger] mat@[i]@[j] < p by {
            if i != pr && j >= col {
                nt::cong_mod(mid[i]@[j] - (mid[i]@[col as int] * pivot@[j]) % q, q);
            }
        }
        if nt::is_prime(q) && org[pr as int]@[col as int] != 0 && (forall|c: int|
            0 <= c < col ==> #[trigger] org[pr as int]@[c] == 0) {
            lemma_pivot_step(org, mid, mat@, m as int, n as int, pr as int, col as int, inv, q);
        }
    }
}

/// What a pivot step does, in terms of row operations.
proof fn lemma_pivot_step(
    org: Seq<Vec<u64>>,
    mid: Seq<Vec<u64>>,
    fin: Seq<Vec<u64>>,
    m: int,
    n: int,
    pr: int,
    col: int,
    inv: u64,
    p: int,
)
    requires
        nt::is_prime(p),
        is_dense(org, m, n, p),
        is_dense(mid, m, n, p),
        is_dense(fin, m, n, p),
        0 <= pr < m,
        0 <= col < n,
        org[pr]@[col] != 0,
        forall|c: int| 0 <= c < col ==> #[trigger] org[pr]@[c] == 0,
        !nt::cong(org[pr]@[col] as int, 0, p) ==> nt::cong(inv * org[pr]@[col], 1, p),
        forall|s: int| 0 <= s < m && s != pr ==> #[trigger] mid[s] == org[s],
        forall|c: int| 0 <= c < col ==> #[trigger] mid[pr]@[c] == org[pr]@[c],
        forall|c: int| col <= c < n ==> #[trigger] mid[pr]@[c] == (org[pr]@[c] * inv) % p,
        fin[pr] == mid[pr],
        forall|s: int, c: int|
            0 <= s < m && s != pr && 0 <= c < col ==> #[trigger] fin[s]@[c] == mid[s]@[c],
        forall|s: int, c: int|
            0 <= s < m && s != pr && col <= c < n ==> #[trigger] fin[s]@[c] == (mid[s]@[c] - (
            mid[s]@[col] * mid[pr]@[c]) % p) % p,
    ensures
        exists|u: int, v: int|
            nt::cong(#[trigger] (v * u), 1, p) && linalg::is_scaled(
                dense(fin)[pr],
                dense(org)[pr],
                u,
                p,
            ),
        forall|t: int|
            0 <= t < m && t != pr ==> linalg::is_axpy(
                #[trigger] dense(fin)[t],
                dense(org)[t],
                dense(fin)[pr],
                org[t]@[col] as int,
                p,
            ),
        fin[pr]@[col] == 1,
        forall|t: int| 0 <= t < m && t != pr ==> (#[trigger] fin[t])@[col] == 0,
        forall|t: int, c: int|
            0 <= t < m && 0 <= c < n && (c < col || org[pr]@[c] == 0) ==> #[trigger] fin[t]@[c]
                == org[t]@[c],
{
    let a: int = org[pr]@[col] as int;
    if nt::cong(a, 0, p) {
        nt::cong_small(a, 0, p);
    }
    let u: int = inv as int;
    assert(inv * org[pr]@[col] == a * u) by (nonlinear_arith)
        requires
            a == org[pr]@[col],
            u == inv,
    ;
    assert(nt::cong(a * u, 1, p));
    assert forall|j: int| 0 <= j < n implies nt::cong(
        #[trigger] dense(fin)[pr][j],
        u * dense(org)[pr][j],
        p,
    ) by {
        assert(dense(fin)[pr][j] == mid[pr]@[j]);
        assert(dense(org)[pr][j] == org[pr]@[j]);
        let b: int = org[pr]@[j] as int;
        assert(b * u == u * b) by (nonlinear_arith);
        if j >= col {
            nt::cong_mod(b * u, p);
        } else {
            assert(u * 0 == 0) by (nonlinear_arith);
            nt::cong_refl(0, p);
        }
    }
    assert(linalg::is_scaled(dense(fin)[pr], dense(org)[pr], u, p));
    // The pivot becomes one.
    nt::cong_mod(a * u, p);
    nt::cong_trans((a * u) % p, a * u, 1, p);
    nt::cong_small((a * u) % p, 1, p);
    assert(mid[pr]@[col] == 1);
    assert forall|t: int| 0 <= t < m && t != pr implies linalg::is_axpy(
        #[trigger] dense(fin)[t],
        dense(org)[t],
        dense(fin)[pr],
        org[t]@[col] as int,
        p,
    ) && dense(fin)[t][col] == 0 by {
        let f: int = org[t]@[col] as int;
        assert forall|j: int| 0 <= j < n implies nt::cong(
            #[trigger] dense(fin)[t][j],
            dense(org)[t][j] - f * dense(fin)[pr][j],
            p,
        ) by {
            let b: int = org[t]@[j] as int;
            let d: int = mid[pr]@[j] as int;
            assert(dense(fin)[t][j] == fin[t]@[j]);
            assert(dense(org)[t][j] == b);
            assert(dense(fin)[pr][j] == d);
            assert(mid[t] == org[t]);
            if j >= col {
                nt::cong_mod(f * d, p);
                nt::cong_refl(b, p);
                nt::cong_minus(b, b, (f * d) % p, f * d, p);
                nt::cong_mod(b - (f * d) % p, p);
                nt::cong_trans(fin[t]@[j] as int, b - (f * d) % p, b - f * d, p);
            } else {
                assert(d == 0);
                assert(f * 0 == 0) by (nonlinear_arith);
                nt::cong_refl(b, p);
            }
        }
        // The pivot column is cleared.
        assert(mid[t] == org[t]);
        assert(f * 1 == f);
        nt::cong_mod(f, p);
        nt::cong_small(f % p, f, p);
        nt::cong_mod(f - f, p);
        nt::cong_small((f - f) % p, 0, p);
    }
    assert forall|t: int| 0 <= t < m && t != pr implies (#[trigger] fin[t])@[col] == 0 by {
        assert(dense(fin)[t][col] == fin[t]@[col]);
    }
    assert forall|t: int, c: int|
        0 <= t < m && 0 <= c < n && (c < col || org[pr]@[c] == 0) implies #[trigger] fin[t]@[c]
        == org[t]@[c] by {
        nt::cong_refl(0, p);
        nt::cong_mod(0, p);
        nt::cong_small(0int % p, 0, p);
        if t == pr {
            if c >= col {
                assert(0 * u == 0) by (nonlinear_arith);
            }
        } else {
            assert(mid[t] == org[t]);
            if c >= col {
                assert(0 * u == 0) by (nonlinear_arith);
                assert(mid[pr]@[c] == 0);
                let f: int = mid[t]@[col] as int;
                assert(f * 0 == 0) by (nonlinear_arith);
                let b: int = org[t]@[c] as int;
                nt::cong_mod(b, p);
                nt::cong_small(b % p, b, p);
            }
        }
    }
}

/// The pivot rows so far: the first `row` of the row order.
pub open spec fn done_rows(order: Seq<usize>, row: int) -> Seq<int> {
    Seq::new(row as nat, |i: int| order[i] as int)
}

/// `order` lists the rows `0..m`, each once; `place` says where.
pub open spec fn is_order(order: Seq<usize>, place: Seq<int>, m: int) -> bool {
    &&& order.len() == m
    &&& place.len() == m
    &&& forall|i: int| 0 <= i < m ==> 0 <= #[trigger] order[i] < m && place[order[i] as int] == i
    &&& forall|t: int| 0 <= t < m ==> 0 <= #[trigger] place[t] < m && order[place[t]] == t
}

/// The state of the elimination between columns: the first `row` rows of the order
/// are pivot rows with pivots `piv`, all in columns below `col`.
spec fn reducing(
    cur: Seq<Vec<u64>>,
    org: Seq<Seq<int>>,
    order: Seq<usize>,
    piv: Seq<u32>,
    m: int,
    n: int,
    col: int,
    p: int,
) -> bool {
    let row = piv.len();
    &&& linalg::elimination(dense(cur), org, done_rows(order, row as int), n, p)
    &&& forall|i: int| 0 <= i < row ==> #[trigger] cur[order[i] as int]@[piv[i] as int] == 1
    &&& forall|i: int, t: int|
        0 <= i < row && 0 <= t < m && t != order[i] ==> #[trigger] cur[t]@[piv[i] as int] == 0
    &&& forall|i: int, c: int|
        0 <= i < row && 0 <= c < piv[i] ==> #[trigger] cur[order[i] as int]@[c] == 0
    &&& forall|i: int, c: int|
        row <= i < m && 0 <= c < col ==> #[trigger] cur[order[i] as int]@[c] == 0
}

/// The place, at or after `row`, of the lowest row with a nonzero entry in column
/// `col`.
fn find_lowest(
    mat: &Vec<Vec<u64>>,
    order: &Vec<usize>,
    m: usize,
    n: usize,
    row: usize,
    col: usize,
) -> (res: Option<usize>)
    requires
        mat@.len() == m,
        order@.len() == m,
        forall|i: int| 0 <= i < m ==> (#[trigger] mat@[i])@.len() == n,
        forall|i: int| 0 <= i < m ==> #[trigger] order@[i] < m,
        row <= m,
        col < n,
    ensures
        res matches Some(k) ==> row <= k < m && mat@[order@[k as int] as int]@[col as int] != 0
            && forall|i: int|
            row <= i < m && #[trigger] order@[i] < order@[k as int]
                ==> mat@[order@[i] as int]@[col as int] == 0,
        res is None ==> forall|i: int|
            row <= i < m ==> mat@[#[trigger] order@[i] as int]@[col as int] == 0,
{
    let mut best: Option<usize> = None;
    let mut i: usize = row;
    while i < m
        invariant
            mat@.len() == m,
            order@.len() == m,
            forall|k: int| 0 <= k < m ==> (#[trigger] mat@[k])@.len() == n,
            forall|k: int| 0 <= k < m ==> #[trigger] order@[k] < m,
            row <= i <= m,
            col < n,
            best matches Some(k) ==> row <= k < i && mat@[order@[k as int] as int]@[col as int]
                != 0 && forall|j: int|
                row <= j < i && #[trigger] order@[j] < order@[k as int]
                    ==> mat@[order@[j] as int]@[col as int] == 0,
            best is None ==> forall|j: int|
                row <= j < i ==> mat@[#[trigger] order@[j] as int]@[col as int] == 0,
        decreases m - i,
    {
        if mat[order[i]][col] != 0 {
            let lower: bool = match best {
                None => true,
                Some(k) => order[i] < order[k],
            };
            if lower {
                best = Some(i);
            }
        }
        i += 1;
    }
    best
}

/// Exchanging two places of the row order at or after `row` changes nothing that the
/// elimination has established.
proof fn lemma_reorder(
    cur: Seq<Vec<u64>>,
    org: Seq<Seq<int>>,
    order: Seq<usize>,
    order2: Seq<usize>,
    piv: Seq<u32>,
    m: int,
    n: int,
    col: int,
    k: int,
    p: int,
)
    requires
        reducing(cur, org, order, piv, m, n, col, p),
        order.len() == m,
        piv.len() <= k < m,
        order2 == order.update(piv.len() as int, order[k]).update(k, order[piv.len() as int]),
    ensures
        reducing(cur, org, order2, piv, m, n, col, p),
{
    let row: int = piv.len() as int;
    assert(done_rows(order, row) =~= done_rows(order2, row));
    assert forall|i: int| 0 <= i < row implies #[trigger] cur[order2[i] as int]@[piv[i] as int]
        == 1 by {
        assert(order2[i] == order[i]);
        assert(cur[order[i] as int]@[piv[i] as int] == 1);
    }
    assert forall|i: int, t: int|
        0 <= i < row && 0 <= t < m && t != order2[i] implies #[trigger] cur[t]@[piv[i] as int]
        == 0 by {
        assert(order2[i] == order[i]);
    }
    assert forall|i: int, c: int| 0 <= i < row && 0 <= c < piv[i] implies #[trigger] cur[order2[i] as int]@[c]
        == 0 by {
        assert(order2[i] == order[i]);
        assert(cur[order[i] as int]@[c] == 0);
    }
    assert forall|i: int, c: int| row <= i < m && 0 <= c < col implies #[trigger] cur[order2[i] as int]@[c]
        == 0 by {
        let j: int = if i == row {
            k
        } else if i == k {
            row
        } else {
            i
        };
        assert(order2[i] == order[j]);
        assert(cur[order[j] as int]@[c] == 0);
    }
}

/// A pivot step takes the elimination to the next column.
proof fn lemma_reducing_step(
    cur: Seq<Vec<u64>>,
    nxt: Seq<Vec<u64>>,
    org: Seq<Seq<int>>,
    order: Seq<usize>,
    place: Seq<int>,
    piv: Seq<u32>,
    m: int,
    n: int,
    col: u32,
    p: int,
)
    requires
        p > 1,
        is_dense(cur, m, n, p),
        is_dense(nxt, m, n, p),
        org.len() == m,
        linalg::shaped(org, n),
        is_order(order, place, m),
        reducing(cur, org, order, piv, m, n, col as int, p),
        piv.len() < m,
        col < n,
        forall|i: int| 0 <= i < piv.len() ==> #[trigger] piv[i] < col,
        cur[order[piv.len() as int] as int]@[col as int] != 0,
        exists|u: int, v: int|
            nt::cong(#[trigger] (v * u), 1, p) && linalg::is_scaled(
                dense(nxt)[order[piv.len() as int] as int],
                dense(cur)[order[piv.len() as int] as int],
                u,
                p,
            ),
        forall|t: int|
            0 <= t < m && t != order[piv.len() as int] ==> linalg::is_axpy(
                #[trigger] dense(nxt)[t],
                dense(cur)[t],
                dense(nxt)[order[piv.len() as int] as int],
                cur[t]@[col as int] as int,
                p,
            ),
        nxt[order[piv.len() as int] as int]@[col as int] == 1,
        forall|t: int|
            0 <= t < m && t != order[piv.len() as int] ==> (#[trigger] nxt[t])@[col as int] == 0,
        forall|t: int, c: int|
            0 <= t < m && 0 <= c < n && (c < col || cur[order[piv.len() as int] as int]@[c] == 0)
                ==> #[trigger] nxt[t]@[c] == cur[t]@[c],
    ensures
        reducing(nxt, org, order, piv.push(col), m, n, col + 1, p),
{
    let row: int = piv.len() as int;
    let r: int = order[row] as int;
    let done: Seq<int> = done_rows(order, row);
    let piv2: Seq<u32> = piv.push(col);
    let (u, v): (int, int) = choose|u: int, v: int|
        nt::cong(#[trigger] (v * u), 1, p) && linalg::is_scaled(
            dense(nxt)[r],
            dense(cur)[r],
            u,
            p,
        );
    assert(done_rows(order, row + 1) =~= done.push(r));
    assert(!done.contains(r)) by {
        if done.contains(r) {
            let k: int = choose|k: int| 0 <= k < done.len() && done[k] == r;
            assert(order[k] == order[row]);
            assert(place[order[k] as int] == k);
        }
    }
    assert forall|k: int| 0 <= k < done.len() implies 0 <= #[trigger] done[k] < m by {
        assert(order[k] < m);
    }
    linalg::lemma_elimination_step(
        dense(cur),
        dense(nxt),
        org,
        done,
        r,
        u,
        v,
        factors(cur, col as int),
        n,
        p,
    );
    assert forall|i: int| 0 <= i < row + 1 implies #[trigger] nxt[order[i] as int]@[piv2[i] as int]
        == 1 by {
        if i < row {
            assert(piv2[i] == piv[i]);
            assert(cur[order[i] as int]@[piv[i] as int] == 1);
            assert(order[i] < m);
            assert(nxt[order[i] as int]@[piv[i] as int] == cur[order[i] as int]@[piv[i] as int]);
        }
    }
    assert forall|i: int, t: int|
        0 <= i < row + 1 && 0 <= t < m && t != order[i] implies #[trigger] nxt[t]@[piv2[i] as int]
        == 0 by {
        if i < row {
            assert(piv2[i] == piv[i]);
            assert(cur[t]@[piv[i] as int] == 0);
            assert(nxt[t]@[piv[i] as int] == cur[t]@[piv[i] as int]);
        }
    }
    assert forall|i: int, c: int| 0 <= i < row + 1 && 0 <= c < piv2[i] implies #[trigger] nxt[order[i] as int]@[c]
        == 0 by {
        assert(order[i] < m);
        if i < row {
            assert(piv2[i] == piv[i]);
        }
        assert(cur[order[i] as int]@[c] == 0);
        assert(nxt[order[i] as int]@[c] == cur[order[i] as int]@[c]);
    }
    assert forall|i: int, c: int| row + 1 <= i < m && 0 <= c < col + 1 implies #[trigger] nxt[order[i] as int]@[c]
        == 0 by {
        assert(order[i] < m);
        assert(place[order[i] as int] == i && place[r] == row);
        if c < col {
            assert(cur[order[i] as int]@[c] == 0);
            assert(nxt[order[i] as int]@[c] == cur[order[i] as int]@[c]);
        }
    }
}

/// The row that comes next in the order is the lowest one that adds to the pivot rows,
/// so it continues their list.
proof fn lemma_picked(
    cur: Seq<Vec<u64>>,
    org: Seq<Seq<int>>,
    order: Seq<usize>,
    place: Seq<int>,
    piv: Seq<u32>,
    m: int,
    n: int,
    col: u32,
    p: int,
)
    requires
        p > 1,
        is_dense(cur, m, n, p),
        org.len() == m,
        is_order(order, place, m),
        reducing(cur, org, order, piv, m, n, col as int, p),
        piv.len() < m,
        col < n,
        profile::ascending(piv),
        forall|i: int| 0 <= i < piv.len() ==> #[trigger] piv[i] < col,
        cur[order[piv.len() as int] as int]@[col as int] != 0,
        forall|i: int|
            piv.len() <= i < m && #[trigger] order[i] < order[piv.len() as int]
                ==> cur[order[i] as int]@[col as int] == 0,
        lowest::picks_lowest(org, n, p, piv, done_rows(order, piv.len() as int)),
    ensures
        lowest::picks_lowest(org, n, p, piv.push(col), done_rows(order, piv.len() as int + 1)),
{
    let row: int = piv.len() as int;
    let r: int = order[row] as int;
    let done: Seq<int> = done_rows(order, row);
    let mat: Seq<Seq<int>> = dense(cur);
    assert forall|k: int| 0 <= k < done.len() implies 0 <= #[trigger] done[k] < m by {
        assert(order[k] < m);
    }
    assert(done.no_duplicates()) by {
        assert forall|i: int, j: int|
            0 <= i < done.len() && 0 <= j < done.len() && i != j implies done[i] != done[j] by {
            assert(place[order[i] as int] == i && place[order[j] as int] == j);
        }
    }
    assert forall|t: int| 0 <= t < m && !done.contains(t) implies row <= #[trigger] place[t] by {
        let i: int = place[t];
        assert(order[i] == t);
        if i < row {
            assert(done[i] == t);
        }
    }
    assert(!done.contains(r)) by {
        if done.contains(r) {
            let k: int = choose|k: int| 0 <= k < done.len() && done[k] == r;
            assert(place[order[k] as int] == k && place[order[row] as int] == row);
        }
    }
    assert forall|i: int| 0 <= i < piv.len() implies mat[#[trigger] done[i]][piv[i] as int] == 1 by {
        assert(order[i] < m);
        assert(piv[i] < col);
        assert(cur[order[i] as int]@[piv[i] as int] == 1);
    }
    assert forall|i: int, t: int|
        0 <= i < piv.len() && 0 <= t < mat.len() && t != done[i] implies #[trigger] mat[t][piv[i] as int]
        == 0 by {
        assert(piv[i] < col);
        assert(cur[t]@[piv[i] as int] == 0);
    }
    assert forall|t: int, j: int|
        0 <= t < mat.len() && !done.contains(t) && 0 <= j < col implies #[trigger] mat[t][j]
        == 0 by {
        assert(row <= place[t]);
        assert(order[place[t]] == t);
        assert(cur[order[place[t]] as int]@[j] == 0);
    }
    assert forall|t: int, j: int| 0 <= t < mat.len() && 0 <= j < n implies 0 <= #[trigger] mat[t][j]
        < p by {
        assert(cur[t]@[j] < p);
    }
    assert(lowest::stands_at(mat, done, piv, n, p, col as int));
    assert(order[row] < m);
    assert forall|t: int| 0 <= t < r && !done.contains(t) implies #[trigger] mat[t][col as int]
        == 0 by {
        assert(row <= place[t]);
        assert(order[place[t]] == t);
    }
    lowest::lemma_lowest(mat, org, done, piv, n, p, col as int, r);
    lowest::lemma_pick(org, n, p, piv, done, col, r);
    assert(done_rows(order, row + 1) =~= done.push(r));
}

/// The pivot rows of an elimination, in pivot order.
pub open spec fn pivot_rows(cur: Seq<Vec<u64>>, order: Seq<usize>, rank: int) -> Seq<Seq<int>> {
    Seq::new(rank as nat, |i: int| dense(cur)[order[i] as int])
}

/// What a finished elimination of `a` has found.
struct Reduced {
    mat: Vec<Vec<u64>>,
    order: Vec<usize>,
    piv: Vec<u32>,
}

impl Reduced {
    /// The matrix and the order have the shape of `a`, and the pivots are columns.
    spec fn well_shaped(&self, m: int, n: int, p: int) -> bool {
        &&& is_dense(self.mat@, m, n, p)
        &&& self.order@.len() == m
        &&& self.order@.no_duplicates()
        &&& forall|i: int| 0 <= i < m ==> #[trigger] self.order@[i] < m
        &&& self.piv@.len() <= m
        &&& profile::ascending(self.piv@)
        &&& forall|i: int| 0 <= i < self.piv@.len() ==> #[trigger] self.piv@[i] < n
    }

    /// The pivot rows are in reduced row echelon form, both they and the rows of `org`
    /// they came from have the kernel of `org`, and each is the lowest that could be
    /// picked.
    spec fn reduces(&self, org: Seq<Seq<int>>, n: int, p: int) -> bool {
        let rank = self.piv@.len() as int;
        let rr = pivot_rows(self.mat@, self.order@, rank);
        &&& rref::is_rref(rr, self.piv@, n, p)
        &&& forall|y: Seq<int>|
            y.len() == n ==> (#[trigger] linalg::in_kernel(org, y, p) <==> linalg::in_kernel(
                rr,
                y,
                p,
            ))
        &&& forall|y: Seq<int>|
            y.len() == n && linalg::kills(org, done_rows(self.order@, rank), y, p)
                ==> #[trigger] linalg::in_kernel(org, y, p)
        &&& lowest::picks_lowest(org, n, p, self.piv@, done_rows(self.order@, rank))
    }
}

/// The end of the elimination: what is left below the pivot rows is zero.
proof fn lemma_reduced(
    cur: Seq<Vec<u64>>,
    org: Seq<Seq<int>>,
    order: Seq<usize>,
    place: Seq<int>,
    piv: Seq<u32>,
    m: int,
    n: int,
    col: int,
    p: int,
)
    requires
        p > 1,
        is_dense(cur, m, n, p),
        org.len() == m,
        linalg::shaped(org, n),
        is_order(order, place, m),
        piv.len() <= m,
        profile::ascending(piv),
        forall|i: int| 0 <= i < piv.len() ==> #[trigger] piv[i] < n,
        reducing(cur, org, order, piv, m, n, col, p),
        col == n || piv.len() == m,
    ensures
        rref::is_rref(pivot_rows(cur, order, piv.len() as int), piv, n, p),
        forall|y: Seq<int>|
            y.len() == n ==> (#[trigger] linalg::in_kernel(org, y, p) <==> linalg::in_kernel(
                pivot_rows(cur, order, piv.len() as int),
                y,
                p,
            )),
        forall|y: Seq<int>|
            y.len() == n && linalg::kills(org, done_rows(order, piv.len() as int), y, p)
                ==> #[trigger] linalg::in_kernel(org, y, p),
{
    let rank: int = piv.len() as int;
    let rr: Seq<Seq<int>> = pivot_rows(cur, order, rank);
    let done: Seq<int> = done_rows(order, rank);
    assert forall|k: int| 0 <= k < done.len() implies 0 <= #[trigger] done[k] < m by {
        assert(order[k] < m);
    }
    assert forall|t: int, c: int|
        0 <= t < m && !done.contains(t) && 0 <= c < n implies #[trigger] dense(cur)[t][c] == 0 by {
        let i: int = place[t];
        assert(order[i] == t);
        if i < rank {
            assert(done[i] == t);
        }
        assert(cur[order[i] as int]@[c] == 0);
    }
    assert forall|y: Seq<int>| y.len() == n implies (#[trigger] linalg::in_kernel(org, y, p)
        <==> linalg::in_kernel(rr, y, p)) by {
        linalg::lemma_elimination_end(dense(cur), org, done, n, p, y);
        if linalg::in_kernel(rr, y, p) {
            assert forall|k: int| 0 <= k < done.len() implies linalg::vanishes(
                dense(cur)[#[trigger] done[k]],
                y,
                p,
            ) by {
                assert(linalg::vanishes(rr[k], y, p));
            }
        }
        if linalg::in_kernel(org, y, p) {
            assert forall|k: int| 0 <= k < rr.len() implies linalg::vanishes(
                #[trigger] rr[k],
                y,
                p,
            ) by {
                assert(linalg::vanishes(dense(cur)[done[k]], y, p));
            }
        }
    }
    assert forall|y: Seq<int>|
        y.len() == n && linalg::kills(
            org,
            done,
            y,
            p,
        ) implies #[trigger] linalg::in_kernel(org, y, p) by {
        linalg::lemma_elimination_end(dense(cur), org, done, n, p, y);
    }
    assert forall|i: int, c: int| 0 <= i < rr.len() && 0 <= c < n implies 0 <= #[trigger] rr[i][c]
        < p by {
        assert(order[i] < m);
        assert(cur[order[i] as int]@[c] < p);
    }
    assert forall|i: int| 0 <= i < rr.len() implies #[trigger] rr[i][piv[i] as int] == 1 by {
        assert(order[i] < m);
        assert(piv[i] < n);
        assert(cur[order[i] as int]@[piv[i] as int] == 1);
    }
    assert forall|i: int, j: int|
        0 <= i < rr.len() && 0 <= j < piv.len() && i != j implies #[trigger] rr[i][piv[j] as int]
        == 0 by {
        assert(order[i] < m);
        assert(piv[j] < n);
        assert(place[order[i] as int] == i && place[order[j] as int] == j);
        assert(cur[order[i] as int]@[piv[j] as int] == 0);
    }
    assert forall|i: int, c: int| 0 <= i < rr.len() && 0 <= c < piv[i] implies #[trigger] rr[i][c]
        == 0 by {
        assert(order[i] < m);
        assert(piv[i] < n);
        assert(cur[order[i] as int]@[c] == 0);
    }
    assert(linalg::shaped(rr, n)) by {
        assert forall|i: int| 0 <= i < rr.len() implies (#[trigger] rr[i]).len() == n by {
            assert(order[i] < m);
        }
    }
}

/// Gauss-Jordan elimination, pivots by leftmost column, then lowest row index.
fn reduce(a: Triplets<'_>, p: u64) -> (res: Reduced)
    requires
        p > 1,
        a.in_range(),
        a.cols <= u32::MAX,
    ensures
        res.well_shaped(a.rows as int, a.cols as int, p as int),
        nt::is_prime(p as int) ==> res.reduces(a.mat(), a.cols as int, p as int),
{
    let m: usize = a.rows;
    let n: usize = a.cols;
    let ghost q: int = p as int;
    let ghost org = a.mat();
    let mut mat: Vec<Vec<u64>> = dense_rows(a, p);
    let mut order: Vec<usize> = Vec::new();
    let ghost mut place: Seq<int> = Seq::new(m as nat, |t: int| t);
    let mut k: usize = 0;
    while k < m
        invariant
            k <= m,
            order@.len() == k,
            forall|i: int| 0 <= i < k ==> #[trigger] order@[i] == i,
        decreases m - k,
    {
        order.push(k);
        k += 1;
    }
    let mut piv: Vec<u32> = Vec::new();
    let mut col: usize = 0;
    proof {
        assert forall|t: int, j: int| 0 <= t < m && 0 <= j < n implies nt::cong(
            #[trigger] dense(mat@)[t][j],
            org[t][j],
            q,
        ) by {
            assert(nt::cong(mat@[t]@[j] as int, profile::entry_sum(a.entries@, t, j), q));
        }
        linalg::lemma_elimination_start(dense(mat@), org, n as int, q);
        assert(done_rows(order@, 0) =~= Seq::<int>::empty());
        assert(reducing(mat@, org, order@, piv@, m as int, n as int, 0, q));
    }
    while col < n && piv.len() < m
        invariant
            p > 1,
            q == p as int,
            m == a.rows,
            n == a.cols,
            n <= u32::MAX,
            org == a.mat(),
            col <= n,
            piv@.len() <= m,
            is_dense(mat@, m as int, n as int, q),
            is_order(order@, place, m as int),
            profile::ascending(piv@),
            forall|i: int| 0 <= i < piv@.len() ==> #[trigger] piv@[i] < col,
            nt::is_prime(q) ==> reducing(
                mat@,
                org,
                order@,
                piv@,
                m as int,
                n as int,
                col as int,
                q,
            ),
            nt::is_prime(q) ==> lowest::picks_lowest(
                org,
                n as int,
                q,
                piv@,
                done_rows(order@, piv@.len() as int),
            ),
        decreases n - col,
    {
        let row: usize = piv.len();
        match find_lowest(&mat, &order, m, n, row, col) {
            None => {
                proof {
                    if nt::is_prime(q) {
                        assert forall|i: int, c: int|
                            row <= i < m && 0 <= c < col + 1 implies #[trigger] mat@[order@[i] as int]@[c]
                            == 0 by {
                            assert(mat@[order@[i] as int]@[col as int] == 0);
                        }
                    }
                }
            },
            Some(pr) => {
                let ghost order1 = order@;
                let x: usize = order[row];
                let y: usize = order[pr];
                order.set(row, y);
                order.set(pr, x);
                proof {
                    place = place.update(y as int, row as int).update(x as int, pr as int);
                    lemma_swap_places(order1, order@, place, m as int, row as int, pr as int);
                    if nt::is_prime(q) {
                        lemma_reorder(
                            mat@,
                            org,
                            order1,
                            order@,
                            piv@,
                            m as int,
                            n as int,
                            col as int,
                            pr as int,
                            q,
                        );
                        assert(done_rows(order@, row as int) =~= done_rows(order1, row as int));
                        lemma_picked(
                            mat@,
                            org,
                            order@,
                            place,
                            piv@,
                            m as int,
                            n as int,
                            col as u32,
                            q,
                        );
                    }
                }
                let ghost cur = mat@;
                let ghost piv1 = piv@;
                pivot_step(&mut mat, m, n, y, col, p);
                proof {
                    if nt::is_prime(q) {
                        assert forall|c: int| 0 <= c < col implies #[trigger] cur[y as int]@[c]
                            == 0 by {
                            assert(order@[row as int] == y);
                            assert(cur[order@[row as int] as int]@[c] == 0);
                        }
                        lemma_reducing_step(
                            cur,
                            mat@,
                            org,
                            order@,
                            place,
                            piv1,
                            m as int,
                            n as int,
                            col as u32,
                            q,
                        );
                    }
                }
                piv.push(col as u32);
            },
        }
        col += 1;
    }
    proof {
        assert(order@.no_duplicates()) by {
            assert forall|i: int, j: int|
                0 <= i < order@.len() && 0 <= j < order@.len() && i != j implies order@[i]
                != order@[j] by {
                assert(place[order@[i] as int] == i && place[order@[j] as int] == j);
            }
        }
        if nt::is_prime(q) {
            lemma_reduced(mat@, org, order@, place, piv@, m as int, n as int, col as int, q);
        }
    }
    Reduced { mat, order, piv }
}

/// Exchanging two places keeps an order an order.
pub(crate) proof fn lemma_swap_places(
    order1: Seq<usize>,
    order2: Seq<usize>,
    place2: Seq<int>,
    m: int,
    i: int,
    j: int,
)
    requires
        0 <= i < m,
        0 <= j < m,
        order2 == order1.update(i, order1[j]).update(j, order1[i]),
        exists|place1: Seq<int>|
            #[trigger] is_order(order1, place1, m) && place2 == place1.update(
                order1[j] as int,
                i,
            ).update(order1[i] as int, j),
    ensures
        is_order(order2, place2, m),
{
    let place1: Seq<int> = choose|place1: Seq<int>|
        #[trigger] is_order(order1, place1, m) && place2 == place1.update(
            order1[j] as int,
            i,
        ).update(order1[i] as int, j);
    assert(place1[order1[i] as int] == i && place1[order1[j] as int] == j);
    assert forall|k: int| 0 <= k < m implies 0 <= #[trigger] order2[k] < m
        && place2[order2[k] as int] == k by {
        assert(0 <= order1[k] < m && place1[order1[k] as int] == k);
    }
    assert forall|t: int| 0 <= t < m implies 0 <= #[trigger] place2[t] < m && order2[place2[t]]
        == t by {
        assert(0 <= place1[t] < m && order1[place1[t]] == t);
    }
}

/// The canonical vector of the free column `f`, read off the pivot rows.
fn read_vector(red: &Reduced, m: usize, n: usize, f: usize, p: u64) -> (v: SparseVec)
    requires
        p > 1,
        red.well_shaped(m as int, n as int, p as int),
        f < n <= u32::MAX,
        !profile::is_pivot(red.piv@, f as int),
    ensures
        rref::is_rref(
            pivot_rows(red.mat@, red.order@, red.piv@.len() as int),
            red.piv@,
            n as int,
            p as int,
        ) ==> {
            &&& profile::is_sparse(v.idx@, v.val@, n as int, p as int)
            &&& profile::expand(v.idx@, v.val@, n as int) == rref::free_vector(
                pivot_rows(red.mat@, red.order@, red.piv@.len() as int),
                red.piv@,
                n as int,
                p as int,
                f as int,
            )
        },
{
    let mut idx: Vec<u32> = Vec::new();
    let mut val: Vec<u64> = Vec::new();
    let ghost rr = pivot_rows(red.mat@, red.order@, red.piv@.len() as int);
    let ghost piv = red.piv@;
    let ghost q: int = p as int;
    let mut j: usize = 0;
    while j < red.piv.len() && (red.piv[j] as usize) < f
        invariant
            p > 1,
            q == p as int,
            j <= piv.len(),
            f < n <= u32::MAX,
            piv == red.piv@,
            rr == pivot_rows(red.mat@, red.order@, piv.len() as int),
            red.well_shaped(m as int, n as int, q),
            forall|i: int| 0 <= i < j ==> #[trigger] piv[i] < f,
            profile::is_sparse(idx@, val@, n as int, q),
            forall|k: int|
                0 <= k < idx@.len() ==> rref::comes_from(
                    piv,
                    rr,
                    f as int,
                    q,
                    j as int,
                    #[trigger] idx@[k],
                    val@[k],
                ),
            forall|i: int|
                0 <= i < j && rr[i][f as int] != 0 ==> profile::is_pivot(
                    idx@,
                    #[trigger] piv[i] as int,
                ),
        decreases piv.len() - j,
    {
        let x: u64 = red.mat[red.order[j]][f];
        proof {
            assert(red.order@[j as int] < m);
            assert(x < p);
            assert(rr[j as int][f as int] == x);
            assert(piv[j as int] < n);
        }
        if x != 0 {
            let ghost idx1 = idx@;
            let ghost val1 = val@;
            proof {
                assert forall|k: int| 0 <= k < idx1.len() implies #[trigger] idx1[k]
                    < piv[j as int] by {
                    let i: int = choose|i: int|
                        0 <= i < j && #[trigger] piv[i] == idx1[k] && rr[i][f as int] != 0
                            && val1[k] == q - rr[i][f as int];
                    assert(piv[i] < piv[j as int]);
                }
            }
            idx.push(red.piv[j]);
            val.push(p - x);
            proof {
                assert forall|k: int| 0 <= k < idx@.len() implies rref::comes_from(
                    piv,
                    rr,
                    f as int,
                    q,
                    j + 1,
                    #[trigger] idx@[k],
                    val@[k],
                ) by {
                    if k < idx1.len() {
                        assert(rref::comes_from(piv, rr, f as int, q, j as int, idx1[k], val1[k]));
                        let i: int = choose|i: int|
                            0 <= i < j && #[trigger] piv[i] == idx1[k] && rr[i][f as int] != 0
                                && val1[k] == q - rr[i][f as int];
                        assert(piv[i] == idx@[k]);
                    } else {
                        assert(piv[j as int] == idx@[k]);
                    }
                }
                assert forall|i: int| 0 <= i < j + 1 && rr[i][f as int] != 0 implies profile::is_pivot(
                    idx@,
                    #[trigger] piv[i] as int,
                ) by {
                    if i < j {
                        let k: int = choose|k: int|
                            0 <= k < idx1.len() && #[trigger] idx1[k] == piv[i] as int;
                        assert(idx@[k] == piv[i] as int);
                    } else {
                        assert(idx@[idx1.len() as int] == piv[j as int] as int);
                    }
                }
            }
        }
        j += 1;
    }
    let ghost idx1 = idx@;
    let ghost val1 = val@;
    idx.push(f as u32);
    val.push(1);
    proof {
        if rref::is_rref(rr, piv, n as int, q) {
            assert forall|k: int| 0 <= k < idx1.len() implies rref::comes_from(
                piv,
                rr,
                f as int,
                q,
                piv.len() as int,
                #[trigger] idx1[k],
                val1[k],
            ) by {
                assert(rref::comes_from(piv, rr, f as int, q, j as int, idx1[k], val1[k]));
                let i: int = choose|i: int|
                    0 <= i < j && #[trigger] piv[i] == idx1[k] && rr[i][f as int] != 0 && val1[k]
                        == q - rr[i][f as int];
                assert(piv[i] == idx1[k]);
            }
            assert forall|i: int| 0 <= i < piv.len() && rr[i][f as int] != 0 implies profile::is_pivot(
                idx1,
                #[trigger] piv[i] as int,
            ) by {
                if i >= j {
                    assert(piv[j as int] >= f);
                    if j < i {
                        assert(piv[j as int] < piv[i]);
                    }
                    if piv[i] == f {
                        assert(profile::is_pivot(piv, f as int));
                    }
                    assert(rr[i][f as int] == 0);
                }
            }
            rref::lemma_listed_vector(rr, piv, n as int, q, f as u32, idx1, val1);
        }
    }
    SparseVec { idx, val }
}

/// The canonical nullspace of `a` modulo `p`, by dense reduced row echelon form with
/// pivots by leftmost column, then lowest row index.
pub fn nullspace_mod_p(a: Triplets<'_>, p: u64) -> (res: Result<ModpNullspace, NullspaceError>)
    requires
        is_prime_ok(p as int) && a.in_range() && a.rows == 0 ==> a.cols <= u32::MAX,
    ensures
        !is_prime_ok(p as int) <==> res == Err::<ModpNullspace, NullspaceError>(
            NullspaceError::BadPrime { prime: p },
        ),
        is_prime_ok(p as int) && !a.in_range() ==> exists|i: int|
            #[trigger] a.first_out_of_range(i) && res == Err::<ModpNullspace, NullspaceError>(
                NullspaceError::IndexOutOfRange {
                    row: a.entries@[i].0,
                    col: a.entries@[i].1,
                    rows: a.rows,
                    cols: a.cols,
                },
            ),
        is_prime_ok(p as int) && a.in_range() && a.rows * a.cols > DENSE_GUARD ==> res == Err::<
            ModpNullspace,
            NullspaceError,
        >(NullspaceError::DenseGuard { rows: a.rows, cols: a.cols }),
        is_prime_ok(p as int) && a.in_range() && a.rows * a.cols <= DENSE_GUARD ==> res is Ok,
        res matches Ok(ns) ==> (nt::is_prime(p as int) ==> ns.is_nullspace_of(
            a.mat(),
            a.cols as int,
            p as int,
        ) && lowest::picks_lowest(
            a.mat(),
            a.cols as int,
            p as int,
            ns.pivot_cols@,
            ns.witness_rows@.map_values(|w: u32| w as int),
        )),
{
    if !prime_ok(p) {
        return Err(NullspaceError::BadPrime { prime: p });
    }
    match a.validate() {
        Err(e) => {
            return Err(e);
        },
        Ok(()) => {},
    }
    let m: usize = a.rows;
    let n: usize = a.cols;
    match m.checked_mul(n) {
        None => {
            return Err(NullspaceError::DenseGuard { rows: m, cols: n });
        },
        Some(mn) => {
            if mn > DENSE_GUARD {
                return Err(NullspaceError::DenseGuard { rows: m, cols: n });
            }
        },
    }
    assert(n <= u32::MAX) by {
        if m > 0 {
            assert(n <= m * n) by (nonlinear_arith)
                requires
                    m >= 1,
                    n >= 0,
            ;
        }
    }
    let red: Reduced = reduce(a, p);
    let ghost q: int = p as int;
    let ghost org = a.mat();
    let ghost rr = pivot_rows(red.mat@, red.order@, red.piv@.len() as int);
    let rank: usize = red.piv.len();
    let mut witness_rows: Vec<u32> = Vec::new();
    let mut k: usize = 0;
    while k < rank
        invariant
            k <= rank,
            rank == red.piv@.len(),
            red.well_shaped(m as int, n as int, q),
            m * n <= DENSE_GUARD,
            witness_rows@.len() == k,
            forall|i: int| 0 <= i < k ==> #[trigger] witness_rows@[i] == red.order@[i],
        decreases rank - k,
    {
        assert(red.piv@[k as int] < n);
        assert(m <= DENSE_GUARD) by (nonlinear_arith)
            requires
                m * n <= DENSE_GUARD,
                n >= 1,
        ;
        witness_rows.push(red.order[k] as u32);
        k += 1;
    }
    let mut basis: Vec<SparseVec> = Vec::new();
    let mut f: usize = 0;
    let mut next: usize = 0;
    while f < n
        invariant
            f <= n,
            n <= u32::MAX,
            p > 1,
            q == p as int,
            n == a.cols,
            rank == red.piv@.len(),
            red.well_shaped(m as int, n as int, q),
            rr == pivot_rows(red.mat@, red.order@, red.piv@.len() as int),
            next <= rank,
            forall|i: int| 0 <= i < next ==> #[trigger] red.piv@[i] < f,
            forall|i: int| next <= i < rank ==> f <= #[trigger] red.piv@[i],
            basis@.len() == profile::free_cols(red.piv@, f as int).len(),
            rref::is_rref(rr, red.piv@, n as int, q) ==> forall|i: int|
                0 <= i < basis@.len() ==> profile::is_sparse(
                    (#[trigger] basis@[i]).idx@,
                    basis@[i].val@,
                    n as int,
                    q,
                ) && profile::expand(basis@[i].idx@, basis@[i].val@, n as int)
                    == rref::free_vector(
                    rr,
                    red.piv@,
                    n as int,
                    q,
                    profile::free_cols(red.piv@, f as int)[i],
                ),
        decreases n - f,
    {
        let ghost frees = profile::free_cols(red.piv@, f as int);
        if next < rank && red.piv[next] as usize == f {
            proof {
                assert(red.piv@[next as int] == f as int);
                assert(profile::is_pivot(red.piv@, f as int));
            }
            next += 1;
        } else {
            proof {
                if profile::is_pivot(red.piv@, f as int) {
                    let i: int = choose|i: int|
                        0 <= i < red.piv@.len() && #[trigger] red.piv@[i] == f as int;
                    assert(next <= i);
                    if next < i {
                        assert(red.piv@[next as int] < red.piv@[i]);
                    }
                }
            }
            let v: SparseVec = read_vector(&red, m, n, f, p);
            basis.push(v);
            proof {
                assert(profile::free_cols(red.piv@, f + 1) == frees.push(f as int));
            }
        }
        f += 1;
    }
    let ns: ModpNullspace = ModpNullspace {
        prime: p,
        rank,
        pivot_cols: red.piv,
        witness_rows,
        basis,
    };
    proof {
        if nt::is_prime(q) {
            rref::lemma_rref_profile(org, rr, ns.pivot_cols@, n as int, q);
            profile::lemma_free_cols(ns.pivot_cols@, n as int);
            assert(is_canonical_basis(org, n as int, q, ns.pivot_cols@, ns.basis@)) by {
                let frees = profile::free_cols(ns.pivot_cols@, n as int);
                assert forall|i: int| 0 <= i < ns.basis@.len() implies profile::is_sparse(
                    (#[trigger] ns.basis@[i]).idx@,
                    ns.basis@[i].val@,
                    n as int,
                    q,
                ) && profile::is_basis_vector(
                    org,
                    n as int,
                    q,
                    ns.pivot_cols@,
                    frees[i],
                    profile::expand(ns.basis@[i].idx@, ns.basis@[i].val@, n as int),
                ) by {
                    let fv: Seq<int> = rref::free_vector(
                        rr,
                        ns.pivot_cols@,
                        n as int,
                        q,
                        frees[i],
                    );
                }
            }
            let wit = ns.witness_rows@;
            assert(wit.map_values(|w: u32| w as int) =~= done_rows(red.order@, rank as int));
            assert(wit.no_duplicates()) by {
                assert forall|i: int, j: int|
                    0 <= i < wit.len() && 0 <= j < wit.len() && i != j implies wit[i]
                    != wit[j] by {
                    assert(red.order@[i] != red.order@[j]);
                }
            }
            assert forall|i: int| 0 <= i < wit.len() implies #[trigger] wit[i] < org.len() by {
                assert(red.order@[i] < m);
            }
        }
    }
    Ok(ns)
}

} // verus!
