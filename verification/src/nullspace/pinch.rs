//! The completeness pinch: what the rank modulo one prime says of the exact kernel.

use super::profile;
use super::ModpNullspace;
use crate::linalg;
use crate::nt;
use vstd::prelude::*;

verus! {

/// `y` is in the kernel of `rows`, exactly.
pub open spec fn in_exact_kernel(rows: Seq<Seq<int>>, y: Seq<int>) -> bool {
    forall|i: int| 0 <= i < rows.len() ==> linalg::dot(#[trigger] rows[i], y) == 0
}

/// The sum of the sizes of the first `k` coordinates.
pub open spec fn size(y: Seq<int>, k: int) -> nat
    decreases k,
{
    if k <= 0 {
        0
    } else {
        size(y, k - 1) + nt::abs(y[k - 1]) as nat
    }
}

proof fn lemma_size_shrinks(y: Seq<int>, z: Seq<int>, p: int, k: int)
    requires
        p > 1,
        y.len() == z.len(),
        0 <= k <= y.len(),
        forall|c: int| 0 <= c < y.len() ==> #[trigger] y[c] == p * z[c],
    ensures
        size(z, k) <= size(y, k),
        (exists|c: int| 0 <= c < k && #[trigger] y[c] != 0) ==> size(z, k) < size(y, k),
    decreases k,
{
    if k > 0 {
        lemma_size_shrinks(y, z, p, k - 1);
        let a: int = y[k - 1];
        let b: int = z[k - 1];
        assert(nt::abs(b) <= nt::abs(a) && (a != 0 ==> nt::abs(b) < nt::abs(a)))
            by (nonlinear_arith)
            requires
                a == p * b,
                p > 1,
        ;
        if exists|c: int| 0 <= c < k && #[trigger] y[c] != 0 {
            let c: int = choose|c: int| 0 <= c < k && #[trigger] y[c] != 0;
            if c < k - 1 {
                assert(y[c] != 0);
            }
        }
    }
}

/// An exact kernel vector that vanishes on the free columns of one prime vanishes
/// everywhere: the rank modulo a prime bounds the exact rank from below.
pub proof fn law_exact_kernel_determined(
    mat: Seq<Seq<int>>,
    n: int,
    p: int,
    piv: Seq<u32>,
    y: Seq<int>,
)
    requires
        p > 1,
        linalg::shaped(mat, n),
        profile::is_profile(mat, n, p, piv),
        y.len() == n,
        in_exact_kernel(mat, y),
        forall|c: int| 0 <= c < n && !profile::is_pivot(piv, c) ==> #[trigger] y[c] == 0,
    ensures
        forall|c: int| 0 <= c < n ==> #[trigger] y[c] == 0,
    decreases size(y, n),
{
    if exists|c: int| 0 <= c < n && #[trigger] y[c] != 0 {
        nt::cong_refl(0, p);
        assert forall|i: int| 0 <= i < mat.len() implies linalg::vanishes(
            #[trigger] mat[i],
            y,
            p,
        ) by {}
        assert forall|c: int| 0 <= c < n && !profile::is_pivot(piv, c) implies nt::cong(
            #[trigger] y[c],
            0,
            p,
        ) by {}
        profile::law_kernel_determined_by_free_columns(mat, n, p, piv, y);
        let z: Seq<int> = Seq::new(n as nat, |c: int| y[c] / p);
        assert forall|c: int| 0 <= c < n implies #[trigger] y[c] == p * z[c] by {
            assert(nt::cong(y[c], 0, p));
            vstd::arithmetic::div_mod::lemma_fundamental_div_mod(y[c], p);
        }
        assert(in_exact_kernel(mat, z)) by {
            assert forall|i: int| 0 <= i < mat.len() implies linalg::dot(#[trigger] mat[i], z)
                == 0 by {
                assert forall|c: int| 0 <= c < n implies #[trigger] y[c] == p * z[c] + 0
                    * z[c] by {
                    assert(y[c] == p * z[c]);
                    assert(0 * z[c] == 0) by (nonlinear_arith);
                }
                linalg::lemma_dot_combine(mat[i], z, z, y, p, 0, n);
                assert(linalg::dot(mat[i], y) == 0);
                let v: int = linalg::dot(mat[i], z);
                assert(v == 0) by (nonlinear_arith)
                    requires
                        0 == p * v + 0 * v,
                        p > 1,
                ;
            }
        }
        lemma_size_shrinks(y, z, p, n);
        assert forall|c: int| 0 <= c < n && !profile::is_pivot(piv, c) implies #[trigger] z[c]
            == 0 by {
            assert(y[c] == 0);
            assert(y[c] == p * z[c]);
            assert(z[c] == 0) by (nonlinear_arith)
                requires
                    0 == p * z[c],
                    p > 1,
            ;
        }
        law_exact_kernel_determined(mat, n, p, piv, z);
        let c: int = choose|c: int| 0 <= c < n && #[trigger] y[c] != 0;
        assert(z[c] == 0);
        assert(y[c] == p * z[c]);
    }
}

/// A prime under which nothing is free proves the exact kernel trivial.
pub proof fn law_zero_nullity_is_exact(
    mat: Seq<Seq<int>>,
    n: int,
    p: int,
    ns: ModpNullspace,
    y: Seq<int>,
)
    requires
        p > 1,
        n >= 0,
        linalg::shaped(mat, n),
        ns.is_nullspace_of(mat, n, p),
        ns.basis@.len() == 0,
        y.len() == n,
        in_exact_kernel(mat, y),
    ensures
        forall|c: int| 0 <= c < n ==> #[trigger] y[c] == 0,
{
    assert forall|c: int| 0 <= c < n && !profile::is_pivot(ns.pivot_cols@, c) implies
    #[trigger] y[c] == 0 by {
        let k: int = profile::lemma_free_col_listed(ns.pivot_cols@, n, c);
    }
    law_exact_kernel_determined(mat, n, p, ns.pivot_cols@, y);
}

/// `vs` are exact kernel vectors, one for each free column, with the identity pattern
/// on the free columns.
pub open spec fn is_pinched(
    mat: Seq<Seq<int>>,
    n: int,
    piv: Seq<u32>,
    vs: Seq<Seq<int>>,
) -> bool {
    let free = profile::free_cols(piv, n);
    &&& vs.len() == free.len()
    &&& forall|k: int|
        0 <= k < vs.len() ==> (#[trigger] vs[k]).len() == n && in_exact_kernel(mat, vs[k])
    &&& forall|k: int| 0 <= k < vs.len() ==> #[trigger] vs[k][free[k]] != 0
    &&& forall|k: int, j: int|
        0 <= k < vs.len() && 0 <= j < free.len() && k != j ==> #[trigger] vs[k][free[j]] == 0
}

/// Coordinate `c` of the combination of the first `k` vectors with the coefficients
/// `cs`.
pub open spec fn combination(vs: Seq<Seq<int>>, cs: Seq<int>, c: int, k: int) -> int
    decreases k,
{
    if k <= 0 {
        0
    } else {
        combination(vs, cs, c, k - 1) + cs[k - 1] * vs[k - 1][c]
    }
}

/// Scaling the coefficients scales the combination.
proof fn lemma_combination_scale(
    vs: Seq<Seq<int>>,
    cs: Seq<int>,
    ds: Seq<int>,
    s: int,
    c: int,
    k: int,
)
    requires
        0 <= k <= cs.len(),
        cs.len() <= ds.len(),
        forall|i: int| 0 <= i < cs.len() ==> #[trigger] ds[i] == s * cs[i],
    ensures
        combination(vs, ds, c, k) == s * combination(vs, cs, c, k),
    decreases k,
{
    if k > 0 {
        lemma_combination_scale(vs, cs, ds, s, c, k - 1);
        let a: int = combination(vs, cs, c, k - 1);
        let b: int = cs[k - 1];
        let v: int = vs[k - 1][c];
        assert(ds[k - 1] == s * b);
        assert(s * (a + b * v) == s * a + (s * b) * v) by (nonlinear_arith);
    } else {
        assert(s * 0 == 0) by (nonlinear_arith);
    }
}

/// Clears the first `k` free coordinates of `y`: a nonzero multiple of `y` less a
/// combination of the first `k` vectors, still in the exact kernel.
proof fn clear_free(
    mat: Seq<Seq<int>>,
    n: int,
    piv: Seq<u32>,
    vs: Seq<Seq<int>>,
    y: Seq<int>,
    k: int,
) -> (res: (int, Seq<int>, Seq<int>))
    requires
        n >= 0,
        linalg::shaped(mat, n),
        is_pinched(mat, n, piv, vs),
        y.len() == n,
        in_exact_kernel(mat, y),
        0 <= k <= vs.len(),
    ensures
        res.0 != 0,
        res.1.len() == k,
        res.2.len() == n,
        in_exact_kernel(mat, res.2),
        forall|c: int|
            0 <= c < n ==> #[trigger] res.2[c] == res.0 * y[c] - combination(vs, res.1, c, k),
        forall|j: int| 0 <= j < k ==> res.2[#[trigger] profile::free_cols(piv, n)[j]] == 0,
    decreases k,
{
    let free: Seq<int> = profile::free_cols(piv, n);
    profile::lemma_free_cols(piv, n);
    if k == 0 {
        assert forall|c: int| 0 <= c < n implies #[trigger] y[c] == 1 * y[c] - combination(
            vs,
            Seq::empty(),
            c,
            0,
        ) by {}
        (1, Seq::empty(), y)
    } else {
        let (d, cs, z): (int, Seq<int>, Seq<int>) = clear_free(mat, n, piv, vs, y, k - 1);
        let v: Seq<int> = vs[k - 1];
        let f: int = free[k - 1];
        assert(0 <= f < n);
        let a: int = v[f];
        let b: int = z[f];
        assert(vs[k - 1][free[k - 1]] != 0);
        let d2: int = a * d;
        let cs2: Seq<int> = Seq::new(
            k as nat,
            |i: int|
                if i < k - 1 {
                    a * cs[i]
                } else {
                    b
                },
        );
        let z2: Seq<int> = Seq::new(n as nat, |c: int| a * z[c] + (-b) * v[c]);
        assert(d2 != 0) by (nonlinear_arith)
            requires
                d2 == a * d,
                a != 0,
                d != 0,
        ;
        assert forall|i: int| 0 <= i < mat.len() implies linalg::dot(#[trigger] mat[i], z2) == 0 by {
            linalg::lemma_dot_combine(mat[i], z, v, z2, a, -b, n);
            assert(linalg::dot(mat[i], z) == 0);
            assert(in_exact_kernel(mat, vs[k - 1]));
            assert(linalg::dot(mat[i], v) == 0);
            assert(a * 0 + (-b) * 0 == 0) by (nonlinear_arith);
        }
        assert forall|c: int| 0 <= c < n implies #[trigger] z2[c] == d2 * y[c] - combination(
            vs,
            cs2,
            c,
            k,
        ) by {
            lemma_combination_scale(vs, cs, cs2, a, c, k - 1);
            assert(z[c] == d * y[c] - combination(vs, cs, c, k - 1));
            let u: int = combination(vs, cs, c, k - 1);
            let w: int = y[c];
            let x: int = v[c];
            assert(a * (d * w - u) + (-b) * x == (a * d) * w - (a * u + b * x))
                by (nonlinear_arith);
        }
        assert forall|j: int| 0 <= j < k implies z2[#[trigger] free[j]] == 0 by {
            assert(0 <= free[j] < n);
            if j < k - 1 {
                assert(z[free[j]] == 0);
                assert(vs[k - 1][free[j]] == 0);
                assert(a * 0 + (-b) * 0 == 0) by (nonlinear_arith);
            } else {
                assert(a * b + (-b) * a == 0) by (nonlinear_arith);
            }
        }
        (d2, cs2, z2)
    }
}

/// Exact kernel vectors with the identity pattern on the free columns, as many as one
/// prime has free columns, are complete: a nonzero multiple of every exact kernel
/// vector is a combination of them.
pub proof fn law_pinched_basis_is_complete(
    mat: Seq<Seq<int>>,
    n: int,
    p: int,
    piv: Seq<u32>,
    vs: Seq<Seq<int>>,
    y: Seq<int>,
)
    requires
        p > 1,
        n >= 0,
        linalg::shaped(mat, n),
        profile::is_profile(mat, n, p, piv),
        is_pinched(mat, n, piv, vs),
        y.len() == n,
        in_exact_kernel(mat, y),
    ensures
        exists|d: int, cs: Seq<int>|
            #![trigger is_combination(vs, cs, d, y, n)]
            d != 0 && cs.len() == vs.len() && is_combination(vs, cs, d, y, n),
{
    let (d, cs, z): (int, Seq<int>, Seq<int>) = clear_free(
        mat,
        n,
        piv,
        vs,
        y,
        vs.len() as int,
    );
    assert forall|c: int| 0 <= c < n && !profile::is_pivot(piv, c) implies #[trigger] z[c] == 0 by {
        let k: int = profile::lemma_free_col_listed(piv, n, c);
        assert(z[profile::free_cols(piv, n)[k]] == 0);
    }
    law_exact_kernel_determined(mat, n, p, piv, z);
    assert(is_combination(vs, cs, d, y, n)) by {
        assert forall|c: int| 0 <= c < n implies d * #[trigger] y[c] == combination(
            vs,
            cs,
            c,
            vs.len() as int,
        ) by {
            assert(z[c] == 0);
        }
    }
}

/// `d` times `y` is the combination of `vs` with the coefficients `cs`.
pub open spec fn is_combination(
    vs: Seq<Seq<int>>,
    cs: Seq<int>,
    d: int,
    y: Seq<int>,
    n: int,
) -> bool {
    forall|c: int|
        0 <= c < n ==> d * #[trigger] y[c] == combination(vs, cs, c, vs.len() as int)
}

} // verus!
