//! Which rows a leftmost-column elimination picks as its pivot rows, where each pivot
//! is the lowest row that offers one.

use super::profile;
use super::rref;
use crate::linalg;
use crate::nt;
use vstd::prelude::*;

verus! {

/// `y` has `n` coordinates and none beyond column `c`.
pub open spec fn ends_by(y: Seq<int>, n: int, c: int) -> bool {
    &&& y.len() == n
    &&& forall|j: int| c < j < n ==> #[trigger] y[j] == 0
}

/// Modulo `p`, and up to column `c`, row `t` adds nothing to the rows `sel`: where
/// they send a vector that ends by `c` to zero, so does row `t`.
pub open spec fn adds_nothing(
    mat: Seq<Seq<int>>,
    sel: Seq<int>,
    n: int,
    p: int,
    c: int,
    t: int,
) -> bool {
    forall|y: Seq<int>|
        ends_by(y, n, c) && #[trigger] linalg::kills(mat, sel, y, p) ==> linalg::vanishes(
            mat[t],
            y,
            p,
        )
}

/// Row `r` is the lowest row that adds to the rows `sel` up to column `c`.
pub open spec fn is_lowest(
    mat: Seq<Seq<int>>,
    sel: Seq<int>,
    n: int,
    p: int,
    c: int,
    r: int,
) -> bool {
    &&& 0 <= r < mat.len()
    &&& !adds_nothing(mat, sel, n, p, c, r)
    &&& forall|t: int| 0 <= t < r ==> #[trigger] adds_nothing(mat, sel, n, p, c, t)
}

/// The rows `sel` are the pivot rows of the columns `piv`, in that order, each the
/// lowest row that adds to the ones before it.
pub open spec fn picks_lowest(
    mat: Seq<Seq<int>>,
    n: int,
    p: int,
    piv: Seq<u32>,
    sel: Seq<int>,
) -> bool {
    &&& sel.len() == piv.len()
    &&& forall|k: int|
        0 <= k < piv.len() ==> is_lowest(mat, sel.take(k), n, p, piv[k] as int, #[trigger] sel[k])
}

/// The pivot columns determine the lowest pivot rows.
pub proof fn law_lowest_rows_unique(
    mat: Seq<Seq<int>>,
    n: int,
    p: int,
    piv: Seq<u32>,
    a: Seq<int>,
    b: Seq<int>,
)
    requires
        picks_lowest(mat, n, p, piv, a),
        picks_lowest(mat, n, p, piv, b),
    ensures
        a == b,
{
    lemma_same_start(mat, n, p, piv, a, b, piv.len() as int);
    assert(a.take(piv.len() as int) =~= a);
    assert(b.take(piv.len() as int) =~= b);
}

proof fn lemma_same_start(
    mat: Seq<Seq<int>>,
    n: int,
    p: int,
    piv: Seq<u32>,
    a: Seq<int>,
    b: Seq<int>,
    k: int,
)
    requires
        picks_lowest(mat, n, p, piv, a),
        picks_lowest(mat, n, p, piv, b),
        0 <= k <= piv.len(),
    ensures
        a.take(k) == b.take(k),
    decreases k,
{
    if k > 0 {
        let j: int = k - 1;
        lemma_same_start(mat, n, p, piv, a, b, j);
        let c: int = piv[j] as int;
        assert(is_lowest(mat, a.take(j), n, p, c, a[j]));
        assert(is_lowest(mat, b.take(j), n, p, c, b[j]));
        if a[j] < b[j] {
            assert(adds_nothing(mat, b.take(j), n, p, c, a[j]));
        } else if b[j] < a[j] {
            assert(adds_nothing(mat, a.take(j), n, p, c, b[j]));
        }
        assert(a.take(k) =~= a.take(j).push(a[j]));
        assert(b.take(k) =~= b.take(j).push(b[j]));
    }
}

/// One more pivot row, the lowest one, continues the list.
pub proof fn lemma_pick(
    mat: Seq<Seq<int>>,
    n: int,
    p: int,
    piv: Seq<u32>,
    sel: Seq<int>,
    c: u32,
    r: int,
)
    requires
        picks_lowest(mat, n, p, piv, sel),
        is_lowest(mat, sel, n, p, c as int, r),
    ensures
        picks_lowest(mat, n, p, piv.push(c), sel.push(r)),
{
    let piv2: Seq<u32> = piv.push(c);
    let sel2: Seq<int> = sel.push(r);
    assert forall|k: int| 0 <= k < piv2.len() implies is_lowest(
        mat,
        sel2.take(k),
        n,
        p,
        piv2[k] as int,
        #[trigger] sel2[k],
    ) by {
        if k < piv.len() {
            assert(sel2.take(k) =~= sel.take(k));
            assert(is_lowest(mat, sel.take(k), n, p, piv[k] as int, sel[k]));
        } else {
            assert(sel2.take(k) =~= sel);
        }
    }
}

/// The vector that the pivot rows send to zero and that ends in a one at column `c`.
spec fn probe(
    cur: Seq<Seq<int>>,
    done: Seq<int>,
    piv: Seq<u32>,
    n: int,
    c: int,
) -> Seq<int> {
    Seq::new(
        n as nat,
        |j: int|
            if j == c {
                1
            } else if profile::is_pivot(piv, j) {
                -cur[done[rref::pivot_row(piv, j)]][c]
            } else {
                0
            },
    )
}

/// The pivot rows of an elimination that stands at column `c`: they are reduced, and
/// every other row is zero before `c`.
pub open spec fn stands_at(
    cur: Seq<Seq<int>>,
    done: Seq<int>,
    piv: Seq<u32>,
    n: int,
    p: int,
    c: int,
) -> bool {
    &&& linalg::shaped(cur, n)
    &&& linalg::selects(done, cur.len() as int)
    &&& done.len() == piv.len()
    &&& done.no_duplicates()
    &&& profile::ascending(piv)
    &&& 0 <= c < n
    &&& forall|i: int| 0 <= i < piv.len() ==> #[trigger] piv[i] < c
    &&& forall|i: int| 0 <= i < piv.len() ==> cur[#[trigger] done[i]][piv[i] as int] == 1
    &&& forall|i: int, t: int|
        0 <= i < piv.len() && 0 <= t < cur.len() && t != done[i]
            ==> #[trigger] cur[t][piv[i] as int] == 0
    &&& forall|t: int, j: int|
        0 <= t < cur.len() && !done.contains(t) && 0 <= j < c ==> #[trigger] cur[t][j] == 0
    &&& forall|t: int, j: int|
        0 <= t < cur.len() && 0 <= j < n ==> 0 <= #[trigger] cur[t][j] < p
}

/// The pivot rows send the probe to zero.
proof fn lemma_probe(
    cur: Seq<Seq<int>>,
    done: Seq<int>,
    piv: Seq<u32>,
    n: int,
    p: int,
    c: int,
)
    requires
        p > 1,
        stands_at(cur, done, piv, n, p, c),
    ensures
        ends_by(probe(cur, done, piv, n, c), n, c),
        linalg::kills(cur, done, probe(cur, done, piv, n, c), p),
{
    let y: Seq<int> = probe(cur, done, piv, n, c);
    assert forall|j: int| c < j < n implies #[trigger] y[j] == 0 by {
        if profile::is_pivot(piv, j) {
            let k: int = rref::pivot_row(piv, j);
            assert(0 <= k < piv.len() && piv[k] == j);
        }
    }
    assert forall|i: int| 0 <= i < done.len() implies linalg::vanishes(
        cur[#[trigger] done[i]],
        y,
        p,
    ) by {
        let row: Seq<int> = cur[done[i]];
        let a: int = piv[i] as int;
        assert(piv[i] < c);
        rref::lemma_pivot_row(piv, i);
        assert forall|j: int| 0 <= j < row.len() && j != a && j != c implies nt::cong(
            #[trigger] row[j] * y[j],
            0,
            p,
        ) by {
            if profile::is_pivot(piv, j) {
                let k: int = rref::pivot_row(piv, j);
                assert(0 <= k < piv.len() && piv[k] == j);
                assert(done[i] != done[k]);
                assert(cur[done[i]][piv[k] as int] == 0);
            } else {
                assert(y[j] == 0);
            }
            assert(row[j] * y[j] == 0) by (nonlinear_arith)
                requires
                    row[j] == 0 || y[j] == 0,
            ;
            nt::cong_refl(0, p);
        }
        linalg::lemma_dot_pair(row, y, a, c, p, n);
        assert(row[a] == 1);
        assert(y[a] == -row[c]);
        assert(row[a] * y[a] + row[c] * y[c] == 0) by (nonlinear_arith)
            requires
                row[a] == 1,
                y[a] == -row[c],
                y[c] == 1,
        ;
    }
}

/// On a vector that ends by `c`, only column `c` of a row that is zero before `c`
/// counts.
proof fn lemma_last_column(row: Seq<int>, y: Seq<int>, n: int, p: int, c: int)
    requires
        p > 0,
        row.len() == n,
        ends_by(y, n, c),
        0 <= c < n,
        forall|j: int| 0 <= j < c ==> #[trigger] row[j] == 0,
    ensures
        nt::cong(linalg::dot(row, y), row[c] * y[c], p),
{
    assert forall|j: int| 0 <= j < row.len() && j != c implies nt::cong(
        #[trigger] row[j] * y[j],
        0,
        p,
    ) by {
        assert(row[j] * y[j] == 0) by (nonlinear_arith)
            requires
                row[j] == 0 || y[j] == 0,
        ;
        nt::cong_refl(0, p);
    }
    linalg::lemma_dot_single(row, y, c, p, n);
}

/// The lowest of the remaining rows with an entry in column `c` is the lowest row of
/// the matrix that adds to the pivot rows up to `c`.
pub proof fn lemma_lowest(
    cur: Seq<Seq<int>>,
    org: Seq<Seq<int>>,
    done: Seq<int>,
    piv: Seq<u32>,
    n: int,
    p: int,
    c: int,
    r: int,
)
    requires
        p > 1,
        cur.len() == org.len(),
        stands_at(cur, done, piv, n, p, c),
        linalg::elimination(cur, org, done, n, p),
        0 <= r < cur.len(),
        !done.contains(r),
        cur[r][c] != 0,
        forall|t: int| 0 <= t < r && !done.contains(t) ==> #[trigger] cur[t][c] == 0,
    ensures
        is_lowest(org, done, n, p, c, r),
{
    reveal(linalg::elimination);
    let y: Seq<int> = probe(cur, done, piv, n, c);
    lemma_probe(cur, done, piv, n, p, c);
    assert(linalg::kills(org, done, y, p));
    assert(nt::cong(linalg::dot(cur[r], y), linalg::dot(org[r], y), p));
    lemma_last_column(cur[r], y, n, p, c);
    assert(cur[r][c] * y[c] == cur[r][c]) by (nonlinear_arith)
        requires
            y[c] == 1,
    ;
    if linalg::vanishes(org[r], y, p) {
        nt::cong_sym(linalg::dot(cur[r], y), cur[r][c], p);
        nt::cong_trans(cur[r][c], linalg::dot(cur[r], y), linalg::dot(org[r], y), p);
        nt::cong_trans(cur[r][c], linalg::dot(org[r], y), 0, p);
        nt::cong_small(cur[r][c], 0, p);
    }
    assert forall|t: int| 0 <= t < r implies #[trigger] adds_nothing(org, done, n, p, c, t) by {
        assert forall|z: Seq<int>|
            ends_by(z, n, c) && #[trigger] linalg::kills(org, done, z, p) implies linalg::vanishes(
            org[t],
            z,
            p,
        ) by {
            if done.contains(t) {
                let k: int = choose|k: int| 0 <= k < done.len() && done[k] == t;
                assert(linalg::vanishes(org[done[k]], z, p));
            } else {
                assert(linalg::kills(cur, done, z, p));
                assert(nt::cong(linalg::dot(cur[t], z), linalg::dot(org[t], z), p));
                lemma_last_column(cur[t], z, n, p, c);
                assert(cur[t][c] * z[c] == 0) by (nonlinear_arith)
                    requires
                        cur[t][c] == 0,
                ;
                nt::cong_sym(linalg::dot(cur[t], z), linalg::dot(org[t], z), p);
                nt::cong_trans(linalg::dot(org[t], z), linalg::dot(cur[t], z), 0, p);
            }
        }
    }
}

} // verus!
