//! Independence of rows modulo a number, and eliminations of a block of rows and
//! columns inside a larger matrix.

use crate::linalg;
use crate::nt;
use vstd::prelude::*;

verus! {

/// The selected rows take `y` to the values `b`.
pub open spec fn solves(
    rows: Seq<Seq<int>>,
    sel: Seq<int>,
    b: Seq<int>,
    y: Seq<int>,
    p: int,
) -> bool {
    forall|k: int|
        0 <= k < sel.len() ==> nt::cong(linalg::dot(rows[#[trigger] sel[k]], y), b[k], p)
}

/// Some vector is taken to the values `b`.
pub open spec fn solvable(rows: Seq<Seq<int>>, sel: Seq<int>, b: Seq<int>, n: int, p: int) -> bool {
    exists|y: Seq<int>| y.len() == n && #[trigger] solves(rows, sel, b, y, p)
}

/// The selected rows are independent: together they take every value.
#[verifier::opaque]
pub open spec fn independent(rows: Seq<Seq<int>>, sel: Seq<int>, n: int, p: int) -> bool {
    forall|b: Seq<int>| b.len() == sel.len() ==> #[trigger] solvable(rows, sel, b, n, p)
}

/// Row `sel[i]` has a pivot at column `piv[i]`, and the rows selected after it are
/// zero there.
pub open spec fn triangular(
    rows: Seq<Seq<int>>,
    sel: Seq<int>,
    piv: Seq<int>,
    n: int,
    p: int,
) -> bool {
    &&& sel.len() == piv.len()
    &&& forall|i: int| 0 <= i < piv.len() ==> 0 <= #[trigger] piv[i] < n
    &&& forall|i: int| 0 <= i < sel.len() ==> 0 < #[trigger] rows[sel[i]][piv[i]] < p
    &&& forall|i: int, j: int|
        0 <= i < j < sel.len() ==> #[trigger] rows[sel[j]][piv[i]] == 0
}

/// No coordinate contributes to the dot product.
pub proof fn lemma_dot_null(row: Seq<int>, y: Seq<int>, p: int, k: int)
    requires
        p > 0,
        0 <= k <= row.len(),
        row.len() == y.len(),
        forall|c: int| 0 <= c < row.len() ==> #[trigger] row[c] * y[c] == 0,
    ensures
        linalg::dot_upto(row, y, k) == 0,
    decreases k,
{
    if k > 0 {
        lemma_dot_null(row, y, p, k - 1);
        assert(row[k - 1] * y[k - 1] == 0);
    }
}

/// Triangular rows can be solved from the last to the first.
proof fn solve_triangular(
    rows: Seq<Seq<int>>,
    sel: Seq<int>,
    piv: Seq<int>,
    b: Seq<int>,
    n: int,
    p: int,
    k: int,
) -> (y: Seq<int>)
    requires
        nt::is_prime(p),
        n >= 0,
        linalg::shaped(rows, n),
        linalg::selects(sel, rows.len() as int),
        triangular(rows, sel, piv, n, p),
        b.len() == sel.len(),
        0 <= k <= sel.len(),
    ensures
        y.len() == n,
        forall|i: int|
            0 <= i < k ==> nt::cong(linalg::dot(rows[#[trigger] sel[i]], y), b[i], p),
        forall|c: int|
            0 <= c < n && #[trigger] y[c] != 0 ==> exists|i: int| 0 <= i < k && piv[i] == c,
    decreases k,
{
    if k <= 0 {
        Seq::new(n as nat, |c: int| 0int)
    } else {
        let r: int = sel[k - 1];
        let c0: int = piv[k - 1];
        let a: int = rows[r][c0];
        assert(0 < rows[sel[k - 1]][piv[k - 1]] < p);
        if nt::cong(a, 0, p) {
            nt::cong_small(a, 0, p);
        }
        let s: int = nt::prime_inverse_exists(a, p);
        let x: int = s * b[k - 1];
        let e: Seq<int> = Seq::new(
            n as nat,
            |c: int|
                if c == c0 {
                    x
                } else {
                    0
                },
        );
        let b2: Seq<int> = Seq::new(b.len(), |i: int| b[i] - linalg::dot(rows[sel[i]], e));
        let y2: Seq<int> = solve_triangular(rows, sel, piv, b2, n, p, k - 1);
        let y: Seq<int> = Seq::new(n as nat, |c: int| 1 * y2[c] + 1 * e[c]);
        assert forall|i: int| 0 <= i < k implies nt::cong(
            linalg::dot(rows[#[trigger] sel[i]], y),
            b[i],
            p,
        ) by {
            let row: Seq<int> = rows[sel[i]];
            assert(row.len() == n);
            linalg::lemma_dot_combine(row, y2, e, y, 1, 1, n);
            if i < k - 1 {
                assert(nt::cong(linalg::dot(row, y2), b2[i], p));
                nt::cong_refl(linalg::dot(row, e), p);
                nt::cong_plus(
                    linalg::dot(row, y2),
                    b2[i],
                    linalg::dot(row, e),
                    linalg::dot(row, e),
                    p,
                );
            } else {
                assert forall|c: int| 0 <= c < row.len() implies #[trigger] row[c] * y2[c]
                    == 0 by {
                    if y2[c] != 0 {
                        let j: int = choose|j: int| 0 <= j < k - 1 && piv[j] == c;
                        assert(rows[sel[i]][piv[j]] == 0);
                    }
                    assert(row[c] * y2[c] == 0) by (nonlinear_arith)
                        requires
                            row[c] == 0 || y2[c] == 0,
                    ;
                }
                lemma_dot_null(row, y2, p, n);
                assert forall|c: int| 0 <= c < row.len() && c != c0 implies nt::cong(
                    #[trigger] row[c] * e[c],
                    0,
                    p,
                ) by {
                    assert(row[c] * 0 == 0) by (nonlinear_arith);
                    nt::cong_refl(0, p);
                }
                linalg::lemma_dot_single(row, e, c0, p, n);
                nt::cong_scale(b[k - 1], s * a, 1, p);
                assert(b[k - 1] * (s * a) == a * x) by (nonlinear_arith)
                    requires
                        x == s * b[k - 1],
                ;
                nt::cong_trans(linalg::dot(row, e), a * x, b[k - 1], p);
            }
        }
        assert forall|c: int| 0 <= c < n && #[trigger] y[c] != 0 implies exists|i: int|
            0 <= i < k && piv[i] == c by {
            if c == c0 {
                assert(piv[k - 1] == c);
            } else {
                assert(y2[c] != 0);
                let j: int = choose|j: int| 0 <= j < k - 1 && piv[j] == c;
                assert(piv[j] == c);
            }
        }
        y
    }
}

/// Triangular rows are independent modulo a prime.
pub proof fn lemma_triangular_independent(
    rows: Seq<Seq<int>>,
    sel: Seq<int>,
    piv: Seq<int>,
    n: int,
    p: int,
)
    requires
        nt::is_prime(p),
        n >= 0,
        linalg::shaped(rows, n),
        linalg::selects(sel, rows.len() as int),
        triangular(rows, sel, piv, n, p),
    ensures
        independent(rows, sel, n, p),
{
    reveal(independent);
    assert forall|b: Seq<int>| b.len() == sel.len() implies #[trigger] solvable(
        rows,
        sel,
        b,
        n,
        p,
    ) by {
        let y: Seq<int> = solve_triangular(rows, sel, piv, b, n, p, sel.len() as int);
        assert(solves(rows, sel, b, y, p));
    }
}

/// No independent row is zero.
pub proof fn lemma_independent_nonzero(
    rows: Seq<Seq<int>>,
    sel: Seq<int>,
    n: int,
    p: int,
    k: int,
)
    requires
        p > 1,
        independent(rows, sel, n, p),
        0 <= k < sel.len(),
        rows[sel[k]].len() == n,
    ensures
        exists|c: int| 0 <= c < n && #[trigger] rows[sel[k]][c] != 0,
{
    reveal(independent);
    let row: Seq<int> = rows[sel[k]];
    if forall|c: int| 0 <= c < n ==> #[trigger] row[c] == 0 {
        let b: Seq<int> = Seq::new(sel.len(), |i: int| 1int);
        assert(solvable(rows, sel, b, n, p));
        let y: Seq<int> = choose|y: Seq<int>| y.len() == n && #[trigger] solves(rows, sel, b, y, p);
        linalg::lemma_dot_zero_row(row, y, n);
        assert(nt::cong(linalg::dot(rows[sel[k]], y), b[k], p));
        nt::cong_small(0, 1, p);
    }
}

/// A row operation inside the selected rows keeps their kernel and their
/// independence: row `sel[k0]` is scaled by a unit `u` (with inverse `v`), and
/// multiples of it leave the other selected rows.
pub proof fn lemma_row_operation(
    rows: Seq<Seq<int>>,
    nxt: Seq<Seq<int>>,
    sel: Seq<int>,
    k0: int,
    u: int,
    v: int,
    fs: Seq<int>,
    n: int,
    p: int,
)
    requires
        p > 0,
        nt::cong(v * u, 1, p),
        nxt.len() == rows.len(),
        fs.len() == rows.len(),
        linalg::shaped(rows, n),
        linalg::shaped(nxt, n),
        linalg::selects(sel, rows.len() as int),
        sel.no_duplicates(),
        0 <= k0 < sel.len(),
        linalg::is_scaled(nxt[sel[k0]], rows[sel[k0]], u, p),
        forall|t: int|
            0 <= t < rows.len() && t != sel[k0] ==> linalg::is_axpy(
                #[trigger] nxt[t],
                rows[t],
                nxt[sel[k0]],
                fs[t],
                p,
            ),
    ensures
        forall|y: Seq<int>|
            y.len() == n ==> (#[trigger] linalg::kills(nxt, sel, y, p) <==> linalg::kills(
                rows,
                sel,
                y,
                p,
            )),
        independent(rows, sel, n, p) ==> independent(nxt, sel, n, p),
{
    let r: int = sel[k0];
    assert forall|y: Seq<int>| y.len() == n implies (#[trigger] linalg::kills(nxt, sel, y, p)
        <==> linalg::kills(rows, sel, y, p)) by {
        linalg::lemma_scaled_on_killed(nxt[r], rows[r], u, v, y, p);
        if linalg::vanishes(nxt[r], y, p) {
            assert forall|k: int| 0 <= k < sel.len() implies (linalg::vanishes(
                nxt[#[trigger] sel[k]],
                y,
                p,
            ) <==> linalg::vanishes(rows[sel[k]], y, p)) by {
                let t: int = sel[k];
                if t != r {
                    linalg::lemma_axpy_on_killed(nxt[t], rows[t], nxt[r], fs[t], y, p);
                    if linalg::vanishes(rows[t], y, p) {
                        nt::cong_trans(linalg::dot(nxt[t], y), linalg::dot(rows[t], y), 0, p);
                    }
                    if linalg::vanishes(nxt[t], y, p) {
                        nt::cong_sym(linalg::dot(nxt[t], y), linalg::dot(rows[t], y), p);
                        nt::cong_trans(linalg::dot(rows[t], y), linalg::dot(nxt[t], y), 0, p);
                    }
                }
            }
        }
        if linalg::kills(nxt, sel, y, p) {
            assert(linalg::vanishes(nxt[sel[k0]], y, p));
        }
        if linalg::kills(rows, sel, y, p) {
            assert(linalg::vanishes(rows[sel[k0]], y, p));
        }
    }
    if independent(rows, sel, n, p) {
        reveal(independent);
        assert forall|b: Seq<int>| b.len() == sel.len() implies #[trigger] solvable(
            nxt,
            sel,
            b,
            n,
            p,
        ) by {
            let b2: Seq<int> = Seq::new(
                sel.len(),
                |i: int|
                    if i == k0 {
                        v * b[k0]
                    } else {
                        b[i] + fs[sel[i]] * b[k0]
                    },
            );
            assert(solvable(rows, sel, b2, n, p));
            let y: Seq<int> = choose|y: Seq<int>|
                y.len() == n && #[trigger] solves(rows, sel, b2, y, p);
            // The scaled row.
            assert(nt::cong(linalg::dot(rows[sel[k0]], y), b2[k0], p));
            linalg::lemma_dot_scaled(nxt[r], rows[r], u, y, p, n);
            nt::cong_scale(u, linalg::dot(rows[r], y), v * b[k0], p);
            nt::cong_scale(b[k0], v * u, 1, p);
            assert(u * (v * b[k0]) == b[k0] * (v * u)) by (nonlinear_arith);
            assert(b[k0] * 1 == b[k0]);
            nt::cong_trans(linalg::dot(nxt[r], y), u * linalg::dot(rows[r], y), u * (v * b[k0]), p);
            nt::cong_trans(linalg::dot(nxt[r], y), u * (v * b[k0]), b[k0], p);
            assert forall|k: int| 0 <= k < sel.len() implies nt::cong(
                linalg::dot(nxt[#[trigger] sel[k]], y),
                b[k],
                p,
            ) by {
                let t: int = sel[k];
                if k != k0 {
                    assert(t != r);
                    let f: int = fs[t];
                    linalg::lemma_dot_axpy(nxt[t], rows[t], nxt[r], f, y, p, n);
                    assert(nt::cong(linalg::dot(rows[sel[k]], y), b2[k], p));
                    nt::cong_scale(f, linalg::dot(nxt[r], y), b[k0], p);
                    nt::cong_minus(
                        linalg::dot(rows[t], y),
                        b[k] + f * b[k0],
                        f * linalg::dot(nxt[r], y),
                        f * b[k0],
                        p,
                    );
                    nt::cong_trans(
                        linalg::dot(nxt[t], y),
                        linalg::dot(rows[t], y) - f * linalg::dot(nxt[r], y),
                        b[k],
                        p,
                    );
                }
            }
            assert(solves(nxt, sel, b, y, p));
        }
    }
}

/// `rows[ids[i]]` is the block's row `i` spread over the columns `cmap`, and zero
/// elsewhere.
pub open spec fn is_spread(
    rows: Seq<Seq<int>>,
    ids: Seq<int>,
    block: Seq<Seq<int>>,
    cmap: Seq<int>,
    n: int,
) -> bool {
    &&& block.len() == ids.len()
    &&& forall|i: int| 0 <= i < ids.len() ==> 0 <= #[trigger] ids[i] < rows.len()
    &&& forall|i: int, y: Seq<int>|
        0 <= i < ids.len() && y.len() == n ==> #[trigger] linalg::dot(rows[ids[i]], y)
            == linalg::dot(block[i], restrict(y, cmap))
}

/// The coordinates of `y` at the columns `cmap`.
pub open spec fn restrict(y: Seq<int>, cmap: Seq<int>) -> Seq<int> {
    Seq::new(cmap.len(), |k: int| y[cmap[k]])
}

/// The rows of the whole matrix that the block's rows `sel` are.
pub open spec fn lifted(ids: Seq<int>, sel: Seq<int>) -> Seq<int> {
    Seq::new(sel.len(), |k: int| ids[sel[k]])
}

/// An elimination inside a block of rows that are no pivot rows yet is an elimination
/// of the whole matrix.
pub proof fn lemma_block_elimination(
    cur: Seq<Seq<int>>,
    nxt: Seq<Seq<int>>,
    org: Seq<Seq<int>>,
    done: Seq<int>,
    ids: Seq<int>,
    block0: Seq<Seq<int>>,
    block1: Seq<Seq<int>>,
    bdone: Seq<int>,
    cmap: Seq<int>,
    n: int,
    p: int,
)
    requires
        p > 0,
        cur.len() == org.len(),
        nxt.len() == cur.len(),
        linalg::selects(done, cur.len() as int),
        linalg::elimination(cur, org, done, n, p),
        is_spread(cur, ids, block0, cmap, n),
        is_spread(nxt, ids, block1, cmap, n),
        linalg::selects(bdone, ids.len() as int),
        linalg::elimination(block1, block0, bdone, cmap.len() as int, p),
        ids.no_duplicates(),
        forall|i: int| 0 <= i < ids.len() ==> !done.contains(#[trigger] ids[i]),
        forall|t: int| 0 <= t < cur.len() && !ids.contains(t) ==> #[trigger] nxt[t] == cur[t],
    ensures
        linalg::elimination(nxt, org, done + lifted(ids, bdone), n, p),
{
    reveal(linalg::elimination);
    let all: Seq<int> = done + lifted(ids, bdone);
    let mc: int = cmap.len() as int;
    // The pivot rows from before are not in the block, so they are unchanged.
    assert forall|k: int| 0 <= k < done.len() implies nxt[#[trigger] done[k]] == cur[done[k]] by {
        if ids.contains(done[k]) {
            let i: int = choose|i: int| 0 <= i < ids.len() && ids[i] == done[k];
            assert(!done.contains(ids[i]));
            assert(done.contains(done[k]));
        }
    }
    assert forall|y: Seq<int>| y.len() == n implies (#[trigger] linalg::kills(nxt, all, y, p)
        <==> linalg::kills(cur, done, y, p) && linalg::kills(
        block1,
        bdone,
        restrict(y, cmap),
        p,
    )) by {
        lemma_split_kills(nxt, done, ids, block1, bdone, cmap, n, p, y);
        if linalg::kills(nxt, done, y, p) {
            assert forall|k: int| 0 <= k < done.len() implies linalg::vanishes(
                cur[#[trigger] done[k]],
                y,
                p,
            ) by {
                assert(nxt[done[k]] == cur[done[k]]);
            }
        }
        if linalg::kills(cur, done, y, p) {
            assert forall|k: int| 0 <= k < done.len() implies linalg::vanishes(
                nxt[#[trigger] done[k]],
                y,
                p,
            ) by {
                assert(nxt[done[k]] == cur[done[k]]);
            }
        }
    }
    assert forall|y: Seq<int>| y.len() == n && linalg::kills(cur, done, y, p) implies (
    #[trigger] linalg::kills(block0, bdone, restrict(y, cmap), p) <==> linalg::kills(
        org,
        lifted(ids, bdone),
        y,
        p,
    )) by {
        let lift: Seq<int> = lifted(ids, bdone);
        assert forall|k: int| 0 <= k < bdone.len() implies (linalg::vanishes(
            block0[#[trigger] bdone[k]],
            restrict(y, cmap),
            p,
        ) <==> linalg::vanishes(org[lift[k]], y, p)) by {
            let t: int = ids[bdone[k]];
            assert(!done.contains(ids[bdone[k]]));
            assert(linalg::dot(cur[ids[bdone[k]]], y) == linalg::dot(
                block0[bdone[k]],
                restrict(y, cmap),
            ));
            assert(nt::cong(linalg::dot(cur[t], y), linalg::dot(org[t], y), p));
            nt::cong_sym(linalg::dot(cur[t], y), linalg::dot(org[t], y), p);
            if linalg::vanishes(cur[t], y, p) {
                nt::cong_trans(linalg::dot(org[t], y), linalg::dot(cur[t], y), 0, p);
            }
            if linalg::vanishes(org[t], y, p) {
                nt::cong_trans(linalg::dot(cur[t], y), linalg::dot(org[t], y), 0, p);
            }
        }
        if linalg::kills(block0, bdone, restrict(y, cmap), p) {
            assert forall|k: int| 0 <= k < lift.len() implies linalg::vanishes(
                org[#[trigger] lift[k]],
                y,
                p,
            ) by {
                assert(linalg::vanishes(block0[bdone[k]], restrict(y, cmap), p));
            }
        }
        if linalg::kills(org, lift, y, p) {
            assert forall|k: int| 0 <= k < bdone.len() implies linalg::vanishes(
                block0[#[trigger] bdone[k]],
                restrict(y, cmap),
                p,
            ) by {
                assert(linalg::vanishes(org[lift[k]], y, p));
            }
        }
    }
    assert forall|y: Seq<int>| y.len() == n implies (#[trigger] linalg::kills(nxt, all, y, p)
        <==> linalg::kills(org, all, y, p)) by {
        let yb: Seq<int> = restrict(y, cmap);
        let lift: Seq<int> = lifted(ids, bdone);
        assert(linalg::kills(block1, bdone, yb, p) <==> linalg::kills(block0, bdone, yb, p));
        assert(linalg::kills(cur, done, y, p) <==> linalg::kills(org, done, y, p));
        lemma_kills_concat(org, done, lift, y, p);
        if linalg::kills(cur, done, y, p) {
            assert(linalg::kills(block0, bdone, yb, p) <==> linalg::kills(org, lift, y, p));
        }
    }
    assert forall|y: Seq<int>, t: int|
        y.len() == n && linalg::kills(nxt, all, y, p) && 0 <= t < nxt.len() && !all.contains(
            t,
        ) implies nt::cong(#[trigger] linalg::dot(nxt[t], y), linalg::dot(org[t], y), p) by {
        let yb: Seq<int> = restrict(y, cmap);
        assert(linalg::kills(cur, done, y, p));
        assert(linalg::kills(block1, bdone, yb, p));
        if done.contains(t) {
            let k: int = choose|k: int| 0 <= k < done.len() && done[k] == t;
            assert(all[k] == t);
        }
        assert(nt::cong(linalg::dot(cur[t], y), linalg::dot(org[t], y), p));
        if ids.contains(t) {
            let i: int = choose|i: int| 0 <= i < ids.len() && ids[i] == t;
            if bdone.contains(i) {
                let k: int = choose|k: int| 0 <= k < bdone.len() && bdone[k] == i;
                assert(all[done.len() + k] == t);
            }
            assert(linalg::dot(cur[ids[i]], y) == linalg::dot(block0[i], yb));
            assert(linalg::dot(nxt[ids[i]], y) == linalg::dot(block1[i], yb));
            assert(nt::cong(linalg::dot(block1[i], yb), linalg::dot(block0[i], yb), p));
            nt::cong_trans(
                linalg::dot(nxt[t], y),
                linalg::dot(cur[t], y),
                linalg::dot(org[t], y),
                p,
            );
        } else {
            assert(nxt[t] == cur[t]);
        }
    }
}

proof fn lemma_kills_concat(
    rows: Seq<Seq<int>>,
    a: Seq<int>,
    b: Seq<int>,
    y: Seq<int>,
    p: int,
)
    ensures
        linalg::kills(rows, a + b, y, p) <==> linalg::kills(rows, a, y, p) && linalg::kills(
            rows,
            b,
            y,
            p,
        ),
{
    let ab: Seq<int> = a + b;
    if linalg::kills(rows, ab, y, p) {
        assert forall|k: int| 0 <= k < a.len() implies linalg::vanishes(
            rows[#[trigger] a[k]],
            y,
            p,
        ) by {
            assert(ab[k] == a[k]);
        }
        assert forall|k: int| 0 <= k < b.len() implies linalg::vanishes(
            rows[#[trigger] b[k]],
            y,
            p,
        ) by {
            assert(ab[a.len() + k] == b[k]);
        }
    }
    if linalg::kills(rows, a, y, p) && linalg::kills(rows, b, y, p) {
        assert forall|k: int| 0 <= k < ab.len() implies linalg::vanishes(
            rows[#[trigger] ab[k]],
            y,
            p,
        ) by {
            if k < a.len() {
                assert(ab[k] == a[k]);
            } else {
                assert(ab[k] == b[k - a.len()]);
            }
        }
    }
}

proof fn lemma_split_kills(
    rows: Seq<Seq<int>>,
    done: Seq<int>,
    ids: Seq<int>,
    block: Seq<Seq<int>>,
    bdone: Seq<int>,
    cmap: Seq<int>,
    n: int,
    p: int,
    y: Seq<int>,
)
    requires
        is_spread(rows, ids, block, cmap, n),
        linalg::selects(bdone, ids.len() as int),
        y.len() == n,
    ensures
        linalg::kills(rows, done + lifted(ids, bdone), y, p) <==> linalg::kills(rows, done, y, p)
            && linalg::kills(block, bdone, restrict(y, cmap), p),
{
    let lift: Seq<int> = lifted(ids, bdone);
    lemma_kills_concat(rows, done, lift, y, p);
    if linalg::kills(rows, lift, y, p) {
        assert forall|k: int| 0 <= k < bdone.len() implies linalg::vanishes(
            block[#[trigger] bdone[k]],
            restrict(y, cmap),
            p,
        ) by {
            assert(linalg::vanishes(rows[lift[k]], y, p));
            assert(linalg::dot(rows[ids[bdone[k]]], y) == linalg::dot(
                block[bdone[k]],
                restrict(y, cmap),
            ));
        }
    }
    if linalg::kills(block, bdone, restrict(y, cmap), p) {
        assert forall|k: int| 0 <= k < lift.len() implies linalg::vanishes(
            rows[#[trigger] lift[k]],
            y,
            p,
        ) by {
            assert(linalg::vanishes(block[bdone[k]], restrict(y, cmap), p));
            assert(linalg::dot(rows[ids[bdone[k]]], y) == linalg::dot(
                block[bdone[k]],
                restrict(y, cmap),
            ));
        }
    }
}

} // verus!
