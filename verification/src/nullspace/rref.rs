//! Reduced row echelon form, and how the rank profile and the canonical basis are
//! read off it.

use super::profile;
use crate::linalg;
use crate::nt;
use vstd::prelude::*;

verus! {

/// `rr` is in reduced row echelon form modulo `p`, with the pivot of row `i` at
/// column `piv[i]`.
pub open spec fn is_rref(rr: Seq<Seq<int>>, piv: Seq<u32>, n: int, p: int) -> bool {
    &&& rr.len() == piv.len()
    &&& linalg::shaped(rr, n)
    &&& profile::ascending(piv)
    &&& forall|i: int| 0 <= i < piv.len() ==> #[trigger] piv[i] < n
    &&& forall|i: int, c: int|
        0 <= i < rr.len() && 0 <= c < n ==> 0 <= #[trigger] rr[i][c] < p
    &&& forall|i: int| 0 <= i < rr.len() ==> #[trigger] rr[i][piv[i] as int] == 1
    &&& forall|i: int, j: int|
        0 <= i < rr.len() && 0 <= j < piv.len() && i != j ==> #[trigger] rr[i][piv[j] as int] == 0
    &&& forall|i: int, c: int|
        0 <= i < rr.len() && 0 <= c < piv[i] ==> #[trigger] rr[i][c] == 0
}

/// The row whose pivot is column `c`.
pub open spec fn pivot_row(piv: Seq<u32>, c: int) -> int {
    choose|k: int| 0 <= k < piv.len() && #[trigger] piv[k] == c
}

/// The kernel vector that the reduced row echelon form gives for the free column
/// `f`.
pub open spec fn free_vector(
    rr: Seq<Seq<int>>,
    piv: Seq<u32>,
    n: int,
    p: int,
    f: int,
) -> Seq<int> {
    Seq::new(
        n as nat,
        |c: int|
            if c == f {
                1
            } else if profile::is_pivot(piv, c) && rr[pivot_row(piv, c)][f] != 0 {
                p - rr[pivot_row(piv, c)][f]
            } else {
                0
            },
    )
}

pub proof fn lemma_pivot_row(piv: Seq<u32>, j: int)
    requires
        profile::ascending(piv),
        0 <= j < piv.len(),
    ensures
        pivot_row(piv, piv[j] as int) == j,
        profile::is_pivot(piv, piv[j] as int),
{
    assert(piv[j] == piv[j] as int);
    let k: int = pivot_row(piv, piv[j] as int);
    assert(0 <= k < piv.len() && piv[k] == piv[j]);
    if k < j {
        assert(piv[k] < piv[j]);
    } else if j < k {
        assert(piv[j] < piv[k]);
    }
}

/// The kernel vector of a free column is in the kernel, and its last nonzero
/// coordinate is the free column.
pub proof fn lemma_free_vector(rr: Seq<Seq<int>>, piv: Seq<u32>, n: int, p: int, f: int)
    requires
        p > 1,
        is_rref(rr, piv, n, p),
        0 <= f < n,
        !profile::is_pivot(piv, f),
    ensures
        linalg::in_kernel(rr, free_vector(rr, piv, n, p, f), p),
        forall|c: int|
            0 <= c < n && !profile::is_pivot(piv, c) ==> #[trigger] free_vector(
                rr,
                piv,
                n,
                p,
                f,
            )[c] == (if c == f {
                1int
            } else {
                0
            }),
        forall|c: int| f < c < n ==> #[trigger] free_vector(rr, piv, n, p, f)[c] == 0,
{
    let y: Seq<int> = free_vector(rr, piv, n, p, f);
    assert forall|c: int| f < c < n implies #[trigger] y[c] == 0 by {
        if profile::is_pivot(piv, c) {
            let k: int = pivot_row(piv, c);
            assert(0 <= k < piv.len() && piv[k] == c);
            assert(rr[k][f] == 0);
        }
    }
    assert forall|i: int| 0 <= i < rr.len() implies linalg::vanishes(#[trigger] rr[i], y, p) by {
        let a: int = piv[i] as int;
        let row: Seq<int> = rr[i];
        assert(piv[i] < n);
        lemma_pivot_row(piv, i);
        assert forall|c: int| 0 <= c < row.len() && c != a && c != f implies nt::cong(
            #[trigger] row[c] * y[c],
            0,
            p,
        ) by {
            if profile::is_pivot(piv, c) {
                let k: int = pivot_row(piv, c);
                assert(0 <= k < piv.len() && piv[k] == c);
                assert(rr[i][piv[k] as int] == 0);
            } else {
                assert(y[c] == 0);
            }
            assert(row[c] * y[c] == 0) by (nonlinear_arith)
                requires
                    row[c] == 0 || y[c] == 0,
            ;
            nt::cong_refl(0, p);
        }
        linalg::lemma_dot_pair(row, y, a, f, p, n);
        assert(rr[i][piv[i] as int] == 1);
        assert(row[a] * y[a] == y[a]) by (nonlinear_arith)
            requires
                row[a] == 1,
        ;
        assert(row[f] * y[f] == row[f]) by (nonlinear_arith)
            requires
                y[f] == 1,
        ;
        assert(0 <= rr[i][f] < p);
        let s: int = y[a] + row[f];
        if row[f] != 0 {
            assert(s == p);
            nt::cong_from_quotient(s, 0, p, 1);
        } else {
            assert(s == 0);
            nt::cong_refl(0, p);
        }
        nt::cong_trans(linalg::dot(row, y), s, 0, p);
    }
}

/// The pivot columns of a reduced row echelon form with the kernel of `mat` are the
/// leftmost column rank profile of `mat`, and its kernel vectors are the canonical
/// ones.
pub proof fn lemma_rref_profile(
    mat: Seq<Seq<int>>,
    rr: Seq<Seq<int>>,
    piv: Seq<u32>,
    n: int,
    p: int,
)
    requires
        p > 1,
        is_rref(rr, piv, n, p),
        forall|y: Seq<int>|
            y.len() == n ==> (#[trigger] linalg::in_kernel(mat, y, p) <==> linalg::in_kernel(
                rr,
                y,
                p,
            )),
    ensures
        profile::is_profile(mat, n, p, piv),
        forall|f: int|
            0 <= f < n && !profile::is_pivot(piv, f) ==> profile::is_basis_vector(
                mat,
                n,
                p,
                piv,
                f,
                #[trigger] free_vector(rr, piv, n, p, f),
            ),
{
    assert forall|f: int| 0 <= f < n && !profile::is_pivot(piv, f) implies profile::is_basis_vector(
        mat,
        n,
        p,
        piv,
        f,
        #[trigger] free_vector(rr, piv, n, p, f),
    ) && profile::dependent(mat, n, p, f) by {
        let y: Seq<int> = free_vector(rr, piv, n, p, f);
        lemma_free_vector(rr, piv, n, p, f);
        assert(linalg::in_kernel(mat, y, p));
        assert(y[f] == 1);
        if nt::cong(1, 0, p) {
            nt::cong_small(1, 0, p);
        }
        assert forall|c: int| f < c < n implies nt::cong(#[trigger] y[c], 0, p) by {
            nt::cong_refl(0, p);
        }
        assert(profile::leads_at(mat, n, p, f, y));
    }
    assert forall|j: int| 0 <= j < n && profile::is_pivot(piv, j) implies !profile::dependent(
        mat,
        n,
        p,
        j,
    ) by {
        if profile::dependent(mat, n, p, j) {
            let y: Seq<int> = choose|y: Seq<int>| profile::leads_at(mat, n, p, j, y);
            let i: int = pivot_row(piv, j);
            assert(0 <= i < piv.len() && piv[i] == j);
            let row: Seq<int> = rr[i];
            assert(linalg::in_kernel(mat, y, p));
            assert(linalg::vanishes(rr[i], y, p));
            assert forall|c: int| 0 <= c < row.len() && c != j implies nt::cong(
                #[trigger] row[c] * y[c],
                0,
                p,
            ) by {
                if c < j {
                    assert(rr[i][c] == 0);
                    assert(row[c] * y[c] == 0) by (nonlinear_arith)
                        requires
                            row[c] == 0,
                    ;
                    nt::cong_refl(0, p);
                } else {
                    assert(nt::cong(y[c], 0, p));
                    nt::cong_scale(row[c], y[c], 0, p);
                    assert(row[c] * 0 == 0) by (nonlinear_arith);
                }
            }
            linalg::lemma_dot_single(row, y, j, p, n);
            assert(rr[i][piv[i] as int] == 1);
            assert(row[j] * y[j] == y[j]) by (nonlinear_arith)
                requires
                    row[j] == 1,
            ;
            nt::cong_sym(linalg::dot(row, y), y[j], p);
            nt::cong_trans(y[j], linalg::dot(row, y), 0, p);
        }
    }
    assert forall|j: int| 0 <= j < n implies (#[trigger] profile::is_pivot(piv, j)
        <==> !profile::dependent(mat, n, p, j)) by {
        if !profile::is_pivot(piv, j) {
            let y: Seq<int> = free_vector(rr, piv, n, p, j);
            assert(profile::is_basis_vector(mat, n, p, piv, j, y));
        }
    }
}

/// The entry `(c, v)` is the negated entry at column `f` of one of the first `j` pivot
/// rows, at its pivot column.
pub open spec fn comes_from(
    piv: Seq<u32>,
    rr: Seq<Seq<int>>,
    f: int,
    p: int,
    j: int,
    c: u32,
    v: u64,
) -> bool {
    exists|i: int| 0 <= i < j && #[trigger] piv[i] == c && rr[i][f] != 0 && v == p - rr[i][f]
}

/// The negated entries at column `f`, followed by a one at `f`, are the kernel vector
/// of `f`.
pub proof fn lemma_listed_vector(
    rr: Seq<Seq<int>>,
    piv: Seq<u32>,
    n: int,
    p: int,
    f: u32,
    idx1: Seq<u32>,
    val1: Seq<u64>,
)
    requires
        p > 1,
        is_rref(rr, piv, n, p),
        f < n,
        !profile::is_pivot(piv, f as int),
        profile::is_sparse(idx1, val1, n, p),
        forall|k: int|
            0 <= k < idx1.len() ==> comes_from(
                piv,
                rr,
                f as int,
                p,
                piv.len() as int,
                #[trigger] idx1[k],
                val1[k],
            ),
        forall|i: int|
            0 <= i < piv.len() && rr[i][f as int] != 0 ==> profile::is_pivot(
                idx1,
                #[trigger] piv[i] as int,
            ),
    ensures
        profile::is_sparse(idx1.push(f), val1.push(1), n, p),
        profile::expand(idx1.push(f), val1.push(1), n) == free_vector(rr, piv, n, p, f as int),
{
    let idx: Seq<u32> = idx1.push(f);
    let val: Seq<u64> = val1.push(1);
    let rank: int = piv.len() as int;
    assert forall|k: int| 0 <= k < idx1.len() implies #[trigger] idx1[k] < f by {
        assert(comes_from(piv, rr, f as int, p, rank, idx1[k], val1[k]));
        let i: int = choose|i: int|
            0 <= i < rank && #[trigger] piv[i] == idx1[k] && rr[i][f as int] != 0 && val1[k] == p
                - rr[i][f as int];
        if f < piv[i] {
            assert(rr[i][f as int] == 0);
        }
        if piv[i] == f {
            assert(profile::is_pivot(piv, f as int));
        }
    }
    assert(profile::is_sparse(idx, val, n, p)) by {
        assert forall|i: int, j: int| 0 <= i < j < idx.len() implies idx[i] < idx[j] by {
            if j == idx1.len() {
                assert(idx1[i] < f);
            }
        }
    }
    let y: Seq<int> = free_vector(rr, piv, n, p, f as int);
    assert forall|c: int| 0 <= c < n implies profile::coef(idx, val, c) == #[trigger] y[c] by {
        if c == f {
            assert(idx[idx1.len() as int] == f);
            profile::lemma_coef_listed(idx, val, idx1.len() as int);
        } else if profile::is_pivot(piv, c) && rr[pivot_row(piv, c)][f as int] != 0 {
            let i: int = pivot_row(piv, c);
            assert(0 <= i < piv.len() && piv[i] == c);
            assert(profile::is_pivot(idx1, piv[i] as int));
            let k: int = choose|k: int| 0 <= k < idx1.len() && #[trigger] idx1[k] == piv[i] as int;
            assert(idx[k] == c);
            profile::lemma_coef_listed(idx, val, k);
            assert(comes_from(piv, rr, f as int, p, rank, idx1[k], val1[k]));
            let i2: int = choose|i: int|
                0 <= i < rank && #[trigger] piv[i] == idx1[k] && rr[i][f as int] != 0 && val1[k]
                    == p - rr[i][f as int];
            lemma_pivot_row(piv, i2);
            assert(i2 == i);
        } else {
            profile::lemma_coef_nonzero(idx, val, n, p, c);
            if profile::is_pivot(idx, c) {
                let k: int = choose|k: int| 0 <= k < idx.len() && #[trigger] idx[k] == c;
                assert(k < idx1.len());
                assert(comes_from(piv, rr, f as int, p, rank, idx1[k], val1[k]));
                let i2: int = choose|i: int|
                    0 <= i < rank && #[trigger] piv[i] == idx1[k] && rr[i][f as int] != 0
                        && val1[k] == p - rr[i][f as int];
                lemma_pivot_row(piv, i2);
                assert(profile::is_pivot(piv, c));
            }
        }
    }
    assert(profile::expand(idx, val, n) =~= y);
}

} // verus!
