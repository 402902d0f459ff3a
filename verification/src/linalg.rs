//! Linear algebra modulo a number, over sequences of mathematical integers:
//! dot products, kernels, and what row operations keep.

use crate::nt;
use vstd::prelude::*;

verus! {

/// The sum of the first `k` coordinate products of `row` and `y`.
pub open spec fn dot_upto(row: Seq<int>, y: Seq<int>, k: int) -> int
    decreases k,
{
    if k <= 0 {
        0
    } else {
        dot_upto(row, y, k - 1) + row[k - 1] * y[k - 1]
    }
}

/// The dot product of two vectors of one length.
pub open spec fn dot(row: Seq<int>, y: Seq<int>) -> int {
    dot_upto(row, y, row.len() as int)
}

/// `row . y` is zero modulo `p`.
pub open spec fn vanishes(row: Seq<int>, y: Seq<int>, p: int) -> bool {
    nt::cong(dot(row, y), 0, p)
}

/// Every row of `rows` has length `n`.
pub open spec fn shaped(rows: Seq<Seq<int>>, n: int) -> bool {
    forall|i: int| 0 <= i < rows.len() ==> (#[trigger] rows[i]).len() == n
}

/// `y` is in the kernel of `rows` modulo `p`.
pub open spec fn in_kernel(rows: Seq<Seq<int>>, y: Seq<int>, p: int) -> bool {
    forall|i: int| 0 <= i < rows.len() ==> vanishes(#[trigger] rows[i], y, p)
}

/// The rows that `sel` selects send `y` to zero modulo `p`.
pub open spec fn kills(rows: Seq<Seq<int>>, sel: Seq<int>, y: Seq<int>, p: int) -> bool {
    forall|k: int| 0 <= k < sel.len() ==> vanishes(rows[#[trigger] sel[k]], y, p)
}

/// Every index in `sel` is a row of a matrix of `m` rows.
pub open spec fn selects(sel: Seq<int>, m: int) -> bool {
    forall|k: int| 0 <= k < sel.len() ==> 0 <= #[trigger] sel[k] < m
}

/// Modulo `p`, coordinate by coordinate: `out == t - f * r`.
pub open spec fn is_axpy(out: Seq<int>, t: Seq<int>, r: Seq<int>, f: int, p: int) -> bool {
    &&& out.len() == t.len()
    &&& r.len() == t.len()
    &&& forall|j: int| 0 <= j < t.len() ==> nt::cong(#[trigger] out[j], t[j] - f * r[j], p)
}

/// Modulo `p`, coordinate by coordinate: `out == u * r`.
pub open spec fn is_scaled(out: Seq<int>, r: Seq<int>, u: int, p: int) -> bool {
    &&& out.len() == r.len()
    &&& forall|j: int| 0 <= j < r.len() ==> nt::cong(#[trigger] out[j], u * r[j], p)
}

pub proof fn lemma_dot_axpy(
    out: Seq<int>,
    t: Seq<int>,
    r: Seq<int>,
    f: int,
    y: Seq<int>,
    p: int,
    k: int,
)
    requires
        p > 0,
        is_axpy(out, t, r, f, p),
        y.len() == t.len(),
        0 <= k <= t.len(),
    ensures
        nt::cong(dot_upto(out, y, k), dot_upto(t, y, k) - f * dot_upto(r, y, k), p),
    decreases k,
{
    if k <= 0 {
        assert(f * 0 == 0) by (nonlinear_arith);
        nt::cong_refl(0, p);
    } else {
        let j: int = k - 1;
        lemma_dot_axpy(out, t, r, f, y, p, j);
        let a: int = t[j];
        let b: int = r[j];
        let c: int = y[j];
        assert(nt::cong(out[j], a - f * b, p));
        nt::cong_scale(c, out[j], a - f * b, p);
        assert(c * (a - f * b) == a * c - f * (b * c)) by (nonlinear_arith);
        assert(c * out[j] == out[j] * c) by (nonlinear_arith);
        let d: int = dot_upto(r, y, j);
        assert(f * (d + b * c) == f * d + f * (b * c)) by (nonlinear_arith);
        nt::cong_plus(
            dot_upto(out, y, j),
            dot_upto(t, y, j) - f * d,
            out[j] * c,
            a * c - f * (b * c),
            p,
        );
    }
}

pub proof fn lemma_dot_scaled(out: Seq<int>, r: Seq<int>, u: int, y: Seq<int>, p: int, k: int)
    requires
        p > 0,
        is_scaled(out, r, u, p),
        y.len() == r.len(),
        0 <= k <= r.len(),
    ensures
        nt::cong(dot_upto(out, y, k), u * dot_upto(r, y, k), p),
    decreases k,
{
    if k <= 0 {
        assert(u * 0 == 0) by (nonlinear_arith);
        nt::cong_refl(0, p);
    } else {
        let j: int = k - 1;
        lemma_dot_scaled(out, r, u, y, p, j);
        let b: int = r[j];
        let c: int = y[j];
        assert(nt::cong(out[j], u * b, p));
        nt::cong_scale(c, out[j], u * b, p);
        assert(c * (u * b) == u * (b * c)) by (nonlinear_arith);
        assert(c * out[j] == out[j] * c) by (nonlinear_arith);
        let d: int = dot_upto(r, y, j);
        assert(u * (d + b * c) == u * d + u * (b * c)) by (nonlinear_arith);
        nt::cong_plus(dot_upto(out, y, j), u * d, out[j] * c, u * (b * c), p);
    }
}

/// Where both vectors agree, so do the dot products.
pub proof fn lemma_dot_same(a: Seq<int>, b: Seq<int>, y: Seq<int>, p: int, k: int)
    requires
        p > 0,
        0 <= k <= a.len(),
        a.len() == b.len(),
        forall|j: int| 0 <= j < a.len() ==> nt::cong(#[trigger] a[j], b[j], p),
    ensures
        nt::cong(dot_upto(a, y, k), dot_upto(b, y, k), p),
    decreases k,
{
    if k <= 0 {
        nt::cong_refl(0, p);
    } else {
        let j: int = k - 1;
        lemma_dot_same(a, b, y, p, j);
        assert(nt::cong(a[j], b[j], p));
        nt::cong_refl(y[j], p);
        nt::cong_times(a[j], b[j], y[j], y[j], p);
        nt::cong_plus(dot_upto(a, y, j), dot_upto(b, y, j), a[j] * y[j], b[j] * y[j], p);
    }
}

/// Only one coordinate contributes to the dot product.
pub proof fn lemma_dot_single(row: Seq<int>, y: Seq<int>, a: int, p: int, k: int)
    requires
        p > 0,
        0 <= k <= row.len(),
        row.len() == y.len(),
        0 <= a < row.len(),
        forall|c: int|
            0 <= c < row.len() && c != a ==> nt::cong(#[trigger] row[c] * y[c], 0, p),
    ensures
        nt::cong(
            dot_upto(row, y, k),
            if a < k {
                row[a] * y[a]
            } else {
                0
            },
            p,
        ),
    decreases k,
{
    if k <= 0 {
        nt::cong_refl(0, p);
    } else {
        let j: int = k - 1;
        lemma_dot_single(row, y, a, p, j);
        if j == a {
            nt::cong_refl(row[a] * y[a], p);
            nt::cong_plus(dot_upto(row, y, j), 0, row[a] * y[a], row[a] * y[a], p);
        } else {
            assert(nt::cong(row[j] * y[j], 0, p));
            let v: int = if a < j {
                row[a] * y[a]
            } else {
                0
            };
            nt::cong_plus(dot_upto(row, y, j), v, row[j] * y[j], 0, p);
        }
    }
}

/// Only two coordinates contribute to the dot product.
pub proof fn lemma_dot_pair(row: Seq<int>, y: Seq<int>, a: int, b: int, p: int, k: int)
    requires
        p > 0,
        0 <= k <= row.len(),
        row.len() == y.len(),
        0 <= a < row.len(),
        0 <= b < row.len(),
        a != b,
        forall|c: int|
            0 <= c < row.len() && c != a && c != b ==> nt::cong(#[trigger] row[c] * y[c], 0, p),
    ensures
        nt::cong(
            dot_upto(row, y, k),
            (if a < k {
                row[a] * y[a]
            } else {
                0
            }) + (if b < k {
                row[b] * y[b]
            } else {
                0
            }),
            p,
        ),
    decreases k,
{
    if k <= 0 {
        nt::cong_refl(0, p);
    } else {
        let j: int = k - 1;
        lemma_dot_pair(row, y, a, b, p, j);
        let va: int = if a < j {
            row[a] * y[a]
        } else {
            0
        };
        let vb: int = if b < j {
            row[b] * y[b]
        } else {
            0
        };
        if j == a || j == b {
            nt::cong_refl(row[j] * y[j], p);
            nt::cong_plus(dot_upto(row, y, j), va + vb, row[j] * y[j], row[j] * y[j], p);
        } else {
            assert(nt::cong(row[j] * y[j], 0, p));
            nt::cong_plus(dot_upto(row, y, j), va + vb, row[j] * y[j], 0, p);
        }
    }
}

/// The dot product is linear in its second argument.
pub proof fn lemma_dot_combine(
    row: Seq<int>,
    y: Seq<int>,
    z: Seq<int>,
    w: Seq<int>,
    s: int,
    t: int,
    k: int,
)
    requires
        row.len() == y.len(),
        row.len() == z.len(),
        row.len() == w.len(),
        0 <= k <= row.len(),
        forall|c: int| 0 <= c < row.len() ==> #[trigger] w[c] == s * y[c] + t * z[c],
    ensures
        dot_upto(row, w, k) == s * dot_upto(row, y, k) + t * dot_upto(row, z, k),
    decreases k,
{
    if k <= 0 {
        assert(s * 0 + t * 0 == 0) by (nonlinear_arith);
    } else {
        let j: int = k - 1;
        lemma_dot_combine(row, y, z, w, s, t, j);
        let a: int = row[j];
        let b: int = y[j];
        let c: int = z[j];
        let u: int = dot_upto(row, y, j);
        let v: int = dot_upto(row, z, j);
        assert(w[j] == s * b + t * c);
        assert(a * (s * b + t * c) == s * (a * b) + t * (a * c)) by (nonlinear_arith);
        assert(s * (u + a * b) == s * u + s * (a * b)) by (nonlinear_arith);
        assert(t * (v + a * c) == t * v + t * (a * c)) by (nonlinear_arith);
    }
}

/// A zero row has a zero dot product.
pub proof fn lemma_dot_zero_row(row: Seq<int>, y: Seq<int>, k: int)
    requires
        0 <= k <= row.len(),
        forall|c: int| 0 <= c < row.len() ==> #[trigger] row[c] == 0,
    ensures
        dot_upto(row, y, k) == 0,
    decreases k,
{
    if k > 0 {
        lemma_dot_zero_row(row, y, k - 1);
        assert(row[k - 1] == 0);
        assert(0 * y[k - 1] == 0) by (nonlinear_arith);
    }
}

/// What an elimination keeps, with `org` the matrix it started from, `cur` the
/// matrix it has, and `done` its pivot rows: the pivot rows of `cur` and of `org`
/// have one kernel, and on that kernel every other row of `cur` agrees with the
/// row of `org` it came from.
#[verifier::opaque]
pub open spec fn elimination(
    cur: Seq<Seq<int>>,
    org: Seq<Seq<int>>,
    done: Seq<int>,
    n: int,
    p: int,
) -> bool {
    &&& forall|y: Seq<int>|
        y.len() == n ==> (#[trigger] kills(cur, done, y, p) <==> kills(org, done, y, p))
    &&& forall|y: Seq<int>, t: int|
        y.len() == n && kills(cur, done, y, p) && 0 <= t < cur.len() && !done.contains(t)
            ==> nt::cong(#[trigger] dot(cur[t], y), dot(org[t], y), p)
}

/// An elimination starts with no pivot rows.
pub proof fn lemma_elimination_start(cur: Seq<Seq<int>>, org: Seq<Seq<int>>, n: int, p: int)
    requires
        p > 0,
        cur.len() == org.len(),
        shaped(cur, n),
        shaped(org, n),
        forall|t: int, j: int|
            0 <= t < cur.len() && 0 <= j < n ==> nt::cong(#[trigger] cur[t][j], org[t][j], p),
    ensures
        elimination(cur, org, Seq::<int>::empty(), n, p),
{
    reveal(elimination);
    let done: Seq<int> = Seq::<int>::empty();
    assert forall|y: Seq<int>, t: int|
        y.len() == n && kills(cur, done, y, p) && 0 <= t < cur.len() && !done.contains(
            t,
        ) implies nt::cong(#[trigger] dot(cur[t], y), dot(org[t], y), p) by {
        assert forall|j: int| 0 <= j < cur[t].len() implies nt::cong(
            #[trigger] cur[t][j],
            org[t][j],
            p,
        ) by {}
        lemma_dot_same(cur[t], org[t], y, p, n);
    }
}

/// One pivot step keeps the elimination going: row `r` is scaled by a unit `u`
/// (with inverse `v`) and becomes a pivot row, and multiples of it leave the other
/// rows.
pub proof fn lemma_elimination_step(
    cur: Seq<Seq<int>>,
    nxt: Seq<Seq<int>>,
    org: Seq<Seq<int>>,
    done: Seq<int>,
    r: int,
    u: int,
    v: int,
    fs: Seq<int>,
    n: int,
    p: int,
)
    requires
        p > 0,
        nt::cong(v * u, 1, p),
        cur.len() == org.len(),
        nxt.len() == cur.len(),
        fs.len() == cur.len(),
        shaped(cur, n),
        shaped(nxt, n),
        shaped(org, n),
        selects(done, cur.len() as int),
        0 <= r < cur.len(),
        !done.contains(r),
        is_scaled(nxt[r], cur[r], u, p),
        forall|t: int|
            0 <= t < cur.len() && t != r ==> is_axpy(
                #[trigger] nxt[t],
                cur[t],
                nxt[r],
                fs[t],
                p,
            ),
        elimination(cur, org, done, n, p),
    ensures
        elimination(nxt, org, done.push(r), n, p),
{
    reveal(elimination);
    let dn: Seq<int> = done.push(r);
    assert(dn[done.len() as int] == r);
    // On vectors that the new pivot row kills, the other rows are unchanged.
    assert forall|y: Seq<int>, t: int|
        y.len() == n && vanishes(nxt[r], y, p) && 0 <= t < cur.len() && t != r implies nt::cong(
        #[trigger] dot(nxt[t], y),
        dot(cur[t], y),
        p,
    ) by {
        lemma_axpy_on_killed(nxt[t], cur[t], nxt[r], fs[t], y, p);
    }
    // The new pivot row kills what the old one killed, and conversely.
    assert forall|y: Seq<int>| y.len() == n implies (#[trigger] vanishes(nxt[r], y, p) <==> vanishes(
        cur[r],
        y,
        p,
    )) by {
        lemma_scaled_on_killed(nxt[r], cur[r], u, v, y, p);
    }
    assert forall|y: Seq<int>| y.len() == n && #[trigger] kills(nxt, dn, y, p) implies kills(
        cur,
        done,
        y,
        p,
    ) && vanishes(nxt[r], y, p) by {
        assert(vanishes(nxt[dn[done.len() as int]], y, p));
        assert forall|k: int| 0 <= k < done.len() implies vanishes(
            cur[#[trigger] done[k]],
            y,
            p,
        ) by {
            assert(dn[k] == done[k]);
            assert(done.contains(done[k]));
            let t: int = done[k];
            nt::cong_sym(dot(nxt[t], y), dot(cur[t], y), p);
            nt::cong_trans(dot(cur[t], y), dot(nxt[t], y), 0, p);
        }
    }
    assert forall|y: Seq<int>| y.len() == n implies (#[trigger] kills(nxt, dn, y, p) <==> kills(
        org,
        dn,
        y,
        p,
    )) by {
        if kills(nxt, dn, y, p) {
            assert(kills(org, done, y, p));
            assert(nt::cong(dot(cur[r], y), dot(org[r], y), p));
            nt::cong_sym(dot(cur[r], y), dot(org[r], y), p);
            nt::cong_trans(dot(org[r], y), dot(cur[r], y), 0, p);
            assert forall|k: int| 0 <= k < dn.len() implies vanishes(
                org[#[trigger] dn[k]],
                y,
                p,
            ) by {
                if k < done.len() {
                    assert(dn[k] == done[k]);
                }
            }
        }
        if kills(org, dn, y, p) {
            assert(vanishes(org[dn[done.len() as int]], y, p));
            assert(kills(org, done, y, p)) by {
                assert forall|k: int| 0 <= k < done.len() implies vanishes(
                    org[#[trigger] done[k]],
                    y,
                    p,
                ) by {
                    assert(dn[k] == done[k]);
                }
            }
            assert(kills(cur, done, y, p));
            assert(nt::cong(dot(cur[r], y), dot(org[r], y), p));
            nt::cong_trans(dot(cur[r], y), dot(org[r], y), 0, p);
            assert(vanishes(nxt[r], y, p));
            assert forall|k: int| 0 <= k < dn.len() implies vanishes(
                nxt[#[trigger] dn[k]],
                y,
                p,
            ) by {
                if k < done.len() {
                    assert(dn[k] == done[k]);
                    assert(done.contains(done[k]));
                    let t: int = done[k];
                    nt::cong_trans(dot(nxt[t], y), dot(cur[t], y), 0, p);
                }
            }
        }
    }
    assert forall|y: Seq<int>, t: int|
        y.len() == n && kills(nxt, dn, y, p) && 0 <= t < nxt.len() && !dn.contains(
            t,
        ) implies nt::cong(#[trigger] dot(nxt[t], y), dot(org[t], y), p) by {
        assert(dn[done.len() as int] == r);
        assert(t != r);
        if done.contains(t) {
            let k: int = choose|k: int| 0 <= k < done.len() && done[k] == t;
            assert(dn[k] == t);
        }
        assert(nt::cong(dot(cur[t], y), dot(org[t], y), p));
        nt::cong_trans(dot(nxt[t], y), dot(cur[t], y), dot(org[t], y), p);
    }
}

/// Where a row vanishes, taking a multiple of it from another changes nothing.
pub proof fn lemma_axpy_on_killed(
    out: Seq<int>,
    t: Seq<int>,
    r: Seq<int>,
    f: int,
    y: Seq<int>,
    p: int,
)
    requires
        p > 0,
        is_axpy(out, t, r, f, p),
        y.len() == t.len(),
        vanishes(r, y, p),
    ensures
        nt::cong(dot(out, y), dot(t, y), p),
{
    lemma_dot_axpy(out, t, r, f, y, p, t.len() as int);
    nt::cong_scale(f, dot(r, y), 0, p);
    assert(f * 0 == 0) by (nonlinear_arith);
    nt::cong_refl(dot(t, y), p);
    nt::cong_minus(dot(t, y), dot(t, y), f * dot(r, y), 0, p);
    nt::cong_trans(dot(out, y), dot(t, y) - f * dot(r, y), dot(t, y), p);
}

/// Scaling by a unit keeps what a row kills.
pub proof fn lemma_scaled_on_killed(
    out: Seq<int>,
    r: Seq<int>,
    u: int,
    v: int,
    y: Seq<int>,
    p: int,
)
    requires
        p > 0,
        nt::cong(v * u, 1, p),
        is_scaled(out, r, u, p),
        y.len() == r.len(),
    ensures
        vanishes(out, y, p) <==> vanishes(r, y, p),
{
    lemma_dot_scaled(out, r, u, y, p, r.len() as int);
    if vanishes(r, y, p) {
        nt::cong_scale(u, dot(r, y), 0, p);
        assert(u * 0 == 0) by (nonlinear_arith);
        nt::cong_trans(dot(out, y), u * dot(r, y), 0, p);
    }
    if vanishes(out, y, p) {
        nt::cong_sym(dot(out, y), u * dot(r, y), p);
        nt::cong_trans(u * dot(r, y), dot(out, y), 0, p);
        nt::cancel_unit(u, v, dot(r, y), p);
    }
}

/// At the end of an elimination, when the rows that are no pivot rows are zero, the
/// pivot rows of `cur`, the same rows of `org`, and all of `org` have one kernel.
pub proof fn lemma_elimination_end(
    cur: Seq<Seq<int>>,
    org: Seq<Seq<int>>,
    done: Seq<int>,
    n: int,
    p: int,
    y: Seq<int>,
)
    requires
        p > 0,
        cur.len() == org.len(),
        shaped(cur, n),
        selects(done, cur.len() as int),
        elimination(cur, org, done, n, p),
        y.len() == n,
        forall|t: int, c: int|
            0 <= t < cur.len() && !done.contains(t) && 0 <= c < n ==> #[trigger] cur[t][c] == 0,
    ensures
        kills(cur, done, y, p) <==> in_kernel(org, y, p),
        kills(org, done, y, p) <==> in_kernel(org, y, p),
{
    reveal(elimination);
    if kills(cur, done, y, p) {
        assert forall|t: int| 0 <= t < org.len() implies vanishes(#[trigger] org[t], y, p) by {
            if done.contains(t) {
                let k: int = choose|k: int| 0 <= k < done.len() && done[k] == t;
                assert(vanishes(org[done[k]], y, p));
            } else {
                assert forall|c: int| 0 <= c < cur[t].len() implies #[trigger] cur[t][c] == 0 by {}
                lemma_dot_zero_row(cur[t], y, n);
                assert(dot(cur[t], y) == 0);
                nt::cong_sym(dot(cur[t], y), dot(org[t], y), p);
            }
        }
    }
    if in_kernel(org, y, p) {
        assert forall|k: int| 0 <= k < done.len() implies vanishes(
            org[#[trigger] done[k]],
            y,
            p,
        ) by {}
        assert(kills(org, done, y, p));
    }
}

} // verus!
