//! What the lift recovers: the exact kernel vectors that the residues of two primes
//! reduce.

use super::clearing;
use super::fraction;
use super::lift;
use super::pinch;
use super::profile;
use super::verify;
use super::{ModpNullspace, SparseVec};
use crate::linalg;
use crate::nt;
use vstd::prelude::*;

verus! {

/// `n / d` is the reduced form of `y / l`.
pub open spec fn is_reduced(n: int, d: int, y: int, l: int) -> bool {
    &&& d > 0
    &&& nt::gcd(nt::abs(n) as nat, d as nat) == 1
    &&& n * l == y * d
}

/// `g` divides every coordinate.
pub open spec fn divides_all(g: int, y: Seq<int>) -> bool {
    forall|c: int| 0 <= c < y.len() ==> nt::divides(g, #[trigger] y[c])
}

/// No number above one divides every coordinate.
pub open spec fn is_primitive(y: Seq<int>) -> bool {
    forall|g: int| g > 1 ==> !#[trigger] divides_all(g, y)
}

/// Every coordinate before `c` is zero.
pub open spec fn is_zero_before(y: Seq<int>, c: int) -> bool {
    forall|j: int| 0 <= j < c ==> #[trigger] y[j] == 0
}

/// The first nonzero coordinate is positive.
pub open spec fn leads_positive(y: Seq<int>) -> bool {
    forall|c: int| 0 <= c < y.len() && #[trigger] y[c] != 0 && is_zero_before(y, c) ==> y[c] > 0
}

/// `y` is the canonical integer form of the exact kernel vector of the free column `f`:
/// nonzero at `f`, zero at every other free column, primitive, and positive where it is
/// first nonzero.
pub open spec fn is_exact_vector(
    mat: Seq<Seq<int>>,
    n: int,
    piv: Seq<u32>,
    f: int,
    y: Seq<int>,
) -> bool {
    &&& y.len() == n
    &&& 0 <= f < n
    &&& pinch::in_exact_kernel(mat, y)
    &&& y[f] != 0
    &&& forall|c: int|
        0 <= c < n && !profile::is_pivot(piv, c) && c != f ==> #[trigger] y[c] == 0
    &&& is_primitive(y)
    &&& leads_positive(y)
}

/// Every coordinate over `l`, reduced, is in the reconstruction range.
pub open spec fn in_range(y: Seq<int>, l: int, bound: int) -> bool {
    forall|c: int, n: int, d: int|
        0 <= c < y.len() && #[trigger] is_reduced(n, d, y[c], l) ==> -bound <= n <= bound && d
            <= bound
}

/// Every coordinate has a magnitude within 127 bits.
pub open spec fn is_narrow(y: Seq<int>) -> bool {
    forall|c: int| 0 <= c < y.len() ==> -i128::MAX <= #[trigger] y[c] <= i128::MAX
}

/// The value of a sparse integer vector at coordinate `c`.
pub open spec fn value(out: Seq<(u32, i128)>, c: int) -> int {
    match verify::value_at(out, c as u32) {
        Some(v) => v as int,
        None => 0,
    }
}

/// The sparse vector `out` is `y`.
pub open spec fn spells(out: Seq<(u32, i128)>, y: Seq<int>) -> bool {
    forall|c: int| 0 <= c < y.len() ==> value(out, c) == #[trigger] y[c]
}

/// Every fraction has a reduced form.
proof fn reduced_form(y: int, l: int) -> (nd: (int, int))
    requires
        l != 0,
    ensures
        is_reduced(nd.0, nd.1, y, l),
{
    let a: nat = nt::abs(y) as nat;
    let b: nat = nt::abs(l) as nat;
    let xy: (int, int) = nt::bezout(a, b);
    let g: int = nt::gcd(a, b) as int;
    let e: int = nt::divides_quotient(g, a as int);
    let d: int = nt::divides_quotient(g, b as int);
    assert(e >= 0 && d > 0) by (nonlinear_arith)
        requires
            a == e * g,
            b == d * g,
            a >= 0,
            b > 0,
            g > 0,
    ;
    let h: int = nt::gcd(e as nat, d as nat) as int;
    let uv: (int, int) = nt::bezout(e as nat, d as nat);
    let e1: int = nt::divides_quotient(h, e);
    let d1: int = nt::divides_quotient(h, d);
    assert(a == e1 * (h * g) && b == d1 * (h * g) && h * g > 0) by (nonlinear_arith)
        requires
            a == e * g,
            b == d * g,
            e == e1 * h,
            d == d1 * h,
            h > 0,
            g > 0,
    ;
    nt::divides_from_quotient(h * g, a as int, e1);
    nt::divides_from_quotient(h * g, b as int, d1);
    nt::common_divisor_divides_gcd(h * g, a, b);
    nt::divides_le(h * g, g);
    assert(h == 1) by (nonlinear_arith)
        requires
            h * g <= g,
            g > 0,
            h > 0,
    ;
    let n: int = if (y < 0) == (l < 0) {
        e
    } else {
        -e
    };
    assert(n * l == y * d) by (nonlinear_arith)
        requires
            a == e * g,
            b == d * g,
            y == a || y == -a,
            l == b || l == -b,
            y < 0 ==> y == -a,
            y >= 0 ==> y == a,
            l < 0 ==> l == -b,
            l >= 0 ==> l == b,
            n == if (y < 0) == (l < 0) {
                e
            } else {
                -e
            },
    ;
    (n, d)
}

/// The coordinate at the free column is a unit modulo every prime with that profile.
proof fn lemma_unit(mat: Seq<Seq<int>>, n: int, p: int, piv: Seq<u32>, f: int, y: Seq<int>)
    requires
        nt::is_prime(p),
        profile::is_profile(mat, n, p, piv),
        is_exact_vector(mat, n, piv, f, y),
    ensures
        !nt::cong(y[f], 0, p),
{
    if nt::cong(y[f], 0, p) {
        nt::cong_refl(0, p);
        assert forall|i: int| 0 <= i < mat.len() implies linalg::vanishes(
            #[trigger] mat[i],
            y,
            p,
        ) by {
            assert(linalg::dot(mat[i], y) == 0);
        }
        profile::law_kernel_determined_by_free_columns(mat, n, p, piv, y);
        assert(divides_all(p, y));
    }
}

/// The canonical residues are the exact vector over its coordinate at the free column.
proof fn lemma_residues(
    mat: Seq<Seq<int>>,
    n: int,
    p: int,
    piv: Seq<u32>,
    f: int,
    y: Seq<int>,
    v: Seq<int>,
)
    requires
        p > 1,
        n >= 0,
        linalg::shaped(mat, n),
        profile::is_profile(mat, n, p, piv),
        is_exact_vector(mat, n, piv, f, y),
        !profile::is_pivot(piv, f),
        profile::is_basis_vector(mat, n, p, piv, f, v),
    ensures
        forall|c: int| 0 <= c < n ==> nt::cong(y[f] * #[trigger] v[c], y[c], p),
{
    let l: int = y[f];
    let w: Seq<int> = Seq::new(n as nat, |c: int| l * v[c] + (-1) * y[c]);
    assert forall|i: int| 0 <= i < mat.len() implies linalg::vanishes(
        #[trigger] mat[i],
        w,
        p,
    ) by {
        linalg::lemma_dot_combine(mat[i], v, y, w, l, -1, n);
        assert(linalg::vanishes(mat[i], v, p));
        assert(linalg::dot(mat[i], y) == 0);
        nt::cong_scale(l, linalg::dot(mat[i], v), 0, p);
        assert(l * 0 == 0) by (nonlinear_arith);
    }
    assert forall|c: int| 0 <= c < n && !profile::is_pivot(piv, c) implies nt::cong(
        #[trigger] w[c],
        0,
        p,
    ) by {
        if c == f {
            assert(v[c] == 1);
            assert(l * 1 + (-1) * l == 0) by (nonlinear_arith);
        } else {
            assert(v[c] == 0);
            assert(y[c] == 0);
            assert(l * 0 + (-1) * 0 == 0) by (nonlinear_arith);
        }
        nt::cong_refl(0, p);
    }
    profile::law_kernel_determined_by_free_columns(mat, n, p, piv, w);
    assert forall|c: int| 0 <= c < n implies nt::cong(l * #[trigger] v[c], y[c], p) by {
        assert(nt::cong(w[c], 0, p));
        let k: int = nt::cong_quotient(w[c], 0, p);
        nt::cong_from_quotient(l * v[c], y[c], p, k);
    }
}

/// A reduced form has the residue.
proof fn lemma_has_residue(nn: int, d: int, yc: int, l: int, r: int, p: int)
    requires
        nt::is_prime(p),
        !nt::cong(l, 0, p),
        nt::cong(l * r, yc, p),
        nn * l == yc * d,
    ensures
        nt::cong(nn, r * d, p),
{
    let x: int = nt::prime_inverse_exists(l, p);
    nt::cong_scale(d, l * r, yc, p);
    assert(d * (l * r) == l * (r * d) && d * yc == l * nn) by (nonlinear_arith)
        requires
            nn * l == yc * d,
    ;
    nt::cong_sym(l * (r * d), l * nn, p);
    nt::cong_cancel(l, x, nn, r * d, p);
}

/// Distinct primes: an inverse of one modulo the other.
proof fn inverse_of_prime(pa: int, pb: int) -> (inv: int)
    requires
        nt::is_prime(pa),
        nt::is_prime(pb),
        pa != pb,
    ensures
        nt::cong(inv * pa, 1, pb),
{
    if nt::cong(pa, 0, pb) {
        assert(nt::divides(pb, pa));
        nt::divides_le(pb, pa);
        assert(!nt::divides(pb, pa));
    }
    nt::prime_inverse_exists(pa, pb)
}

/// The reconstruction range is small against the modulus.
proof fn lemma_bound_small(bound: int, m: int)
    requires
        m > 2,
        lift::is_bound(bound, m),
    ensures
        2 * (bound * bound) <= m,
        bound < m,
{
    assert(bound < m) by (nonlinear_arith)
        requires
            2 * (bound * bound) <= m,
            m > 2,
            bound >= 0,
    ;
}

/// Two residues represent at most one fraction in range.
pub(crate) proof fn lemma_lift_unique(
    n1: int,
    d1: int,
    n2: int,
    d2: int,
    ra: int,
    rb: int,
    pa: int,
    pb: int,
    bound: int,
)
    requires
        nt::is_prime(pa),
        nt::is_prime(pb),
        pa != pb,
        lift::is_bound(bound, pa * pb),
        lift::is_lift(n1, d1, ra, rb, pa, pb, bound),
        lift::is_lift(n2, d2, ra, rb, pa, pb, bound),
    ensures
        n1 == n2,
        d1 == d2,
{
    let inv: int = inverse_of_prime(pa, pb);
    let x: int = ra + ((rb - ra) * inv) * pa;
    nt::cong_from_quotient(x, ra, pa, (rb - ra) * inv);
    nt::cong_scale(rb - ra, inv * pa, 1, pb);
    assert((rb - ra) * (inv * pa) == ((rb - ra) * inv) * pa) by (nonlinear_arith);
    nt::cong_refl(ra, pb);
    nt::cong_plus(ra, ra, ((rb - ra) * inv) * pa, (rb - ra) * 1, pb);
    lift::lemma_lift_is_fraction(n1, d1, x, ra, rb, pa, pb, inv, bound);
    lift::lemma_lift_is_fraction(n2, d2, x, ra, rb, pa, pb, inv, bound);
    assert(pa * pb > 2) by (nonlinear_arith)
        requires
            pa >= 2,
            pb >= 2,
    ;
    lemma_bound_small(bound, pa * pb);
    fraction::law_fraction_unique(n1, d1, n2, d2, x, pa * pb, bound);
}

/// The common denominator divides every common multiple.
pub(crate) proof fn lemma_den_lcm_divides(rat: Seq<(u32, i128, u128)>, k: int, m: int)
    requires
        clearing::proper(rat),
        0 <= k <= rat.len(),
        m > 0,
        forall|i: int| 0 <= i < k ==> nt::divides((#[trigger] rat[i]).2 as int, m),
    ensures
        nt::divides(clearing::den_lcm(rat, k) as int, m),
    decreases k,
{
    if k <= 0 {
        nt::divides_from_quotient(1, m, m);
    } else {
        lemma_den_lcm_divides(rat, k - 1, m);
        clearing::lemma_den_lcm(rat, k - 1);
        clearing::lemma_den_lcm(rat, k);
        let a: nat = clearing::den_lcm(rat, k - 1);
        assert(rat[k - 1].2 > 0);
        let b: nat = rat[k - 1].2 as nat;
        let xy: (int, int) = nt::bezout(a, b);
        let (x, y): (int, int) = xy;
        let g: int = nt::gcd(a, b) as int;
        let a1: int = nt::divides_quotient(g, a as int);
        vstd::arithmetic::div_mod::lemma_div_multiples_vanish(a1, g);
        assert(g * a1 == a1 * g) by (nonlinear_arith);
        let s: int = nt::divides_quotient(a as int, m);
        let t: int = nt::divides_quotient(b as int, m);
        // m * g == a * b * (x * t + y * s), and a == a1 * g.
        let ab: int = (a * b) as int;
        let ka: int = x * t;
        let kb: int = y * s;
        assert(m * g == m * (x * a) + m * (y * b)) by (nonlinear_arith)
            requires
                x * a + y * b == g,
        ;
        assert(m * (x * a) == ka * ab) by (nonlinear_arith)
            requires
                m == t * b,
                ka == x * t,
                ab == a * b,
        ;
        assert(m * (y * b) == kb * ab) by (nonlinear_arith)
            requires
                m == s * a,
                kb == y * s,
                ab == a * b,
        ;
        assert(ab == (a1 * b) * g) by (nonlinear_arith)
            requires
                ab == a * b,
                a == a1 * g,
        ;
        assert(ka * ab + kb * ab == (ka + kb) * (a1 * b) * g) by (nonlinear_arith)
            requires
                ab == (a1 * b) * g,
        ;
        assert(m == (x * t + y * s) * (a1 * b)) by (nonlinear_arith)
            requires
                m * g == (x * t + y * s) * (a1 * b) * g,
                g > 0,
        ;
        nt::divides_from_quotient(clearing::den_lcm(rat, k) as int, m, x * t + y * s);
    }
}

/// What divides every coordinate over the common denominator divides the content.
pub(crate) proof fn lemma_common_content(rat: Seq<(u32, i128, u128)>, k: int, g: int)
    requires
        0 <= k <= rat.len(),
        g > 0,
        forall|i: int| 0 <= i < k ==> nt::divides(g, #[trigger] clearing::scaled(rat, i)),
    ensures
        nt::divides(g, clearing::content(rat, k) as int),
    decreases k,
{
    if k <= 0 {
        nt::divides_from_quotient(g, 0, 0);
    } else {
        lemma_common_content(rat, k - 1, g);
        let c: nat = clearing::content(rat, k - 1);
        let v: int = clearing::scaled(rat, k - 1);
        let a: nat = nt::abs(v) as nat;
        let q: int = nt::divides_quotient(g, v);
        if v < 0 {
            assert(a == (-q) * g) by (nonlinear_arith)
                requires
                    v == q * g,
                    a == -v,
            ;
            nt::divides_from_quotient(g, a as int, -q);
        }
        if c > 0 || a > 0 {
            nt::common_divisor_divides_gcd(g, c, a);
        } else {
            nt::divides_from_quotient(g, 0, 0);
        }
    }
}

/// Proportional primitive vectors: the factor of one divides the other.
proof fn lemma_factor_is_one(u: Seq<int>, y: Seq<int>, a: int, b: int, x: int, w: int)
    requires
        u.len() == y.len(),
        a > 0,
        x * a + w * b == 1,
        forall|c: int| 0 <= c < y.len() ==> #[trigger] u[c] * a == y[c] * b,
        is_primitive(y),
    ensures
        a == 1,
{
    if a > 1 {
        assert forall|c: int| 0 <= c < y.len() implies nt::divides(a, #[trigger] y[c]) by {
            let yc: int = y[c];
            let uc: int = u[c];
            assert(uc * a == yc * b);
            assert(yc == (yc * x + w * uc) * a) by (nonlinear_arith)
                requires
                    x * a + w * b == 1,
                    uc * a == yc * b,
            {
                assert(yc == yc * (x * a + w * b));
                assert(yc * (w * b) == w * (yc * b));
            }
            nt::divides_from_quotient(a, yc, yc * x + w * uc);
        }
        assert(divides_all(a, y));
    }
}

/// Proportional primitive vectors are equal up to sign.
proof fn lemma_parallel(u: Seq<int>, y: Seq<int>, a: int, b: int)
    requires
        u.len() == y.len(),
        a != 0,
        b != 0,
        forall|c: int| 0 <= c < y.len() ==> #[trigger] u[c] * a == y[c] * b,
        is_primitive(u),
        is_primitive(y),
    ensures
        (forall|c: int| 0 <= c < y.len() ==> #[trigger] u[c] == y[c]) || (forall|c: int|
            0 <= c < y.len() ==> #[trigger] u[c] == -y[c]),
{
    let aa: nat = nt::abs(a) as nat;
    let bb: nat = nt::abs(b) as nat;
    let xy: (int, int) = nt::bezout(aa, bb);
    let (x, w): (int, int) = xy;
    let g: int = nt::gcd(aa, bb) as int;
    let a1: int = nt::divides_quotient(g, aa as int);
    let b1: int = nt::divides_quotient(g, bb as int);
    assert(a1 > 0 && b1 > 0) by (nonlinear_arith)
        requires
            aa == a1 * g,
            bb == b1 * g,
            aa > 0,
            bb > 0,
            g > 0,
    ;
    assert(x * a1 + w * b1 == 1) by (nonlinear_arith)
        requires
            x * aa + w * bb == g,
            aa == a1 * g,
            bb == b1 * g,
            g > 0,
    {
        assert((x * a1 + w * b1) * g == 1 * g);
    }
    let same: bool = (a < 0) == (b < 0);
    let s: int = if same {
        1
    } else {
        -1
    };
    let sy: Seq<int> = Seq::new(y.len(), |c: int| s * y[c]);
    assert forall|c: int| 0 <= c < y.len() implies #[trigger] u[c] * a1 == sy[c] * b1 by {
        let uc: int = u[c];
        let yc: int = y[c];
        assert(uc * a == yc * b);
        assert(uc * a1 == (s * yc) * b1) by (nonlinear_arith)
            requires
                uc * a == yc * b,
                g > 0,
                aa == a1 * g,
                bb == b1 * g,
                (a == aa && b == bb && s == 1) || (a == -aa && b == -bb && s == 1) || (a == aa && b
                    == -bb && s == -1) || (a == -aa && b == bb && s == -1),
        {
            assert((uc * a1) * g == ((s * yc) * b1) * g);
        }
    }
    assert forall|h: int| h > 1 implies !#[trigger] divides_all(h, sy) by {
        if divides_all(h, sy) {
            assert forall|c: int| 0 <= c < y.len() implies nt::divides(h, #[trigger] y[c]) by {
                assert(nt::divides(h, sy[c]));
                let k: int = nt::divides_quotient(h, sy[c]);
                assert(y[c] == (s * k) * h) by (nonlinear_arith)
                    requires
                        s * y[c] == k * h,
                        s == 1 || s == -1,
                ;
                nt::divides_from_quotient(h, y[c], s * k);
            }
            assert(divides_all(h, y));
        }
    }
    lemma_factor_is_one(u, sy, a1, b1, x, w);
    assert forall|c: int| 0 <= c < u.len() implies #[trigger] sy[c] * b1 == u[c] * a1 by {
        assert(u[c] * a1 == sy[c] * b1);
    }
    assert(w * b1 + x * a1 == 1);
    lemma_factor_is_one(sy, u, b1, a1, w, x);
    assert forall|c: int| 0 <= c < y.len() implies #[trigger] u[c] == s * y[c] by {
        assert(u[c] * a1 == sy[c] * b1);
        assert(u[c] * 1 == u[c] && sy[c] * 1 == sy[c]);
    }
    assert forall|c: int| 0 <= c < y.len() implies #[trigger] u[c] == (if same {
        y[c]
    } else {
        -y[c]
    }) by {
        assert(u[c] == s * y[c]);
    }
}

/// A listed coordinate holds the value beside it.
pub(crate) proof fn lemma_value_listed(out: Seq<(u32, i128)>, i: int)
    requires
        0 <= i < out.len(),
        forall|a: int, b: int|
            0 <= a < b < out.len() ==> (#[trigger] out[a]).0 < (#[trigger] out[b]).0,
    ensures
        verify::value_at(out, out[i].0) == Some(out[i].1),
    decreases out.len(),
{
    if i < out.len() - 1 {
        assert(out[i].0 < out[out.len() - 1].0);
        lemma_value_listed(out.drop_last(), i);
    }
}

/// A coordinate that is not listed holds none.
pub(crate) proof fn lemma_value_unlisted(out: Seq<(u32, i128)>, c: u32)
    requires
        forall|i: int| 0 <= i < out.len() ==> (#[trigger] out[i]).0 != c,
    ensures
        verify::value_at(out, c) is None,
    decreases out.len(),
{
    if out.len() > 0 {
        assert(out[out.len() - 1].0 != c);
        assert forall|i: int| 0 <= i < out.drop_last().len() implies (#[trigger] out.drop_last()[i]).0
            != c by {
            assert(out[i].0 != c);
        }
        lemma_value_unlisted(out.drop_last(), c);
    }
}

/// What the law speaks of: two primes with one profile, the canonical vectors `va` and
/// `vb` of the free column `f`, and the exact vector `y` of that column, in range.
spec fn is_setting(
    mat: Seq<Seq<int>>,
    n: int,
    piv: Seq<u32>,
    f: int,
    va: SparseVec,
    vb: SparseVec,
    pa: int,
    pb: int,
    bound: int,
    y: Seq<int>,
) -> bool {
    &&& nt::is_prime(pa)
    &&& nt::is_prime(pb)
    &&& pa != pb
    &&& lift::is_bound(bound, pa * pb)
    &&& 0 <= n <= 0x1_0000_0000
    &&& linalg::shaped(mat, n)
    &&& profile::is_profile(mat, n, pa, piv)
    &&& profile::is_profile(mat, n, pb, piv)
    &&& 0 <= f < n
    &&& !profile::is_pivot(piv, f)
    &&& profile::is_sparse(va.idx@, va.val@, n, pa)
    &&& profile::is_sparse(vb.idx@, vb.val@, n, pb)
    &&& profile::is_basis_vector(mat, n, pa, piv, f, profile::expand(va.idx@, va.val@, n))
    &&& profile::is_basis_vector(mat, n, pb, piv, f, profile::expand(vb.idx@, vb.val@, n))
    &&& is_exact_vector(mat, n, piv, f, y)
    &&& in_range(y, y[f], bound)
    &&& is_narrow(y)
}

/// The reduced form of a coordinate has both residues.
proof fn lemma_coordinate_lifts(
    mat: Seq<Seq<int>>,
    n: int,
    piv: Seq<u32>,
    f: int,
    va: SparseVec,
    vb: SparseVec,
    pa: int,
    pb: int,
    bound: int,
    y: Seq<int>,
    c: int,
    nn: int,
    d: int,
)
    requires
        is_setting(mat, n, piv, f, va, vb, pa, pb, bound, y),
        0 <= c < n,
        is_reduced(nn, d, y[c], y[f]),
    ensures
        lift::is_lift(
            nn,
            d,
            profile::coef(va.idx@, va.val@, c),
            profile::coef(vb.idx@, vb.val@, c),
            pa,
            pb,
            bound,
        ),
{
    let l: int = y[f];
    lemma_unit(mat, n, pa, piv, f, y);
    lemma_unit(mat, n, pb, piv, f, y);
    let ya: Seq<int> = profile::expand(va.idx@, va.val@, n);
    let yb: Seq<int> = profile::expand(vb.idx@, vb.val@, n);
    lemma_residues(mat, n, pa, piv, f, y, ya);
    lemma_residues(mat, n, pb, piv, f, y, yb);
    assert(nt::cong(l * ya[c], y[c], pa));
    assert(nt::cong(l * yb[c], y[c], pb));
    lemma_has_residue(nn, d, y[c], l, ya[c], pa);
    lemma_has_residue(nn, d, y[c], l, yb[c], pb);
}

/// A coordinate is listed by one of the two vectors exactly where it is nonzero.
proof fn lemma_support(
    mat: Seq<Seq<int>>,
    n: int,
    piv: Seq<u32>,
    f: int,
    va: SparseVec,
    vb: SparseVec,
    pa: int,
    pb: int,
    bound: int,
    y: Seq<int>,
    c: int,
)
    requires
        is_setting(mat, n, piv, f, va, vb, pa, pb, bound, y),
        0 <= c < n,
    ensures
        y[c] != 0 <==> profile::is_pivot(va.idx@, c) || profile::is_pivot(vb.idx@, c),
{
    let l: int = y[f];
    let ra: int = profile::coef(va.idx@, va.val@, c);
    let rb: int = profile::coef(vb.idx@, vb.val@, c);
    let (nn, d): (int, int) = reduced_form(y[c], l);
    lemma_coordinate_lifts(mat, n, piv, f, va, vb, pa, pb, bound, y, c, nn, d);
    profile::lemma_coef_nonzero(va.idx@, va.val@, n, pa, c);
    profile::lemma_coef_nonzero(vb.idx@, vb.val@, n, pb, c);
    profile::lemma_coef_range(va.idx@, va.val@, n, pa, c);
    profile::lemma_coef_range(vb.idx@, vb.val@, n, pb, c);
    if y[c] == 0 {
        lemma_unit(mat, n, pa, piv, f, y);
        lemma_unit(mat, n, pb, piv, f, y);
        let ya: Seq<int> = profile::expand(va.idx@, va.val@, n);
        let yb: Seq<int> = profile::expand(vb.idx@, vb.val@, n);
        lemma_residues(mat, n, pa, piv, f, y, ya);
        lemma_residues(mat, n, pb, piv, f, y, yb);
        assert(nt::cong(l * ya[c], y[c], pa));
        assert(nt::cong(l * yb[c], y[c], pb));
        nt::prime_product_zero(l, ra, pa);
        nt::prime_product_zero(l, rb, pb);
        nt::small_multiple_is_zero(ra, pa);
        nt::small_multiple_is_zero(rb, pb);
    } else if ra == 0 && rb == 0 {
        assert(0 * d == 0) by (nonlinear_arith);
        let inv: int = inverse_of_prime(pa, pb);
        nt::coprime_product_divides(nn, pa, pb, inv);
        assert(pa * pb > 2) by (nonlinear_arith)
            requires
                pa >= 2,
                pb >= 2,
        ;
        lemma_bound_small(bound, pa * pb);
        nt::small_multiple_is_zero(nn, pa * pb);
        assert(0 * l == 0) by (nonlinear_arith);
        assert(y[c] == 0) by (nonlinear_arith)
            requires
                y[c] * d == 0,
                d > 0,
        ;
    }
}

/// The fractions that the lift finds are the coordinates over the one at the free
/// column.
proof fn lemma_fractions(
    mat: Seq<Seq<int>>,
    n: int,
    piv: Seq<u32>,
    f: int,
    va: SparseVec,
    vb: SparseVec,
    pa: int,
    pb: int,
    bound: int,
    y: Seq<int>,
    s: Seq<(u32, u64, u64)>,
    rat: Seq<(u32, i128, u128)>,
    i: int,
)
    requires
        is_setting(mat, n, piv, f, va, vb, pa, pb, bound, y),
        lift::is_union(va, vb, s),
        lift::lifts(s, rat, s.len() as int, pa, pb, bound),
        0 <= i < s.len(),
    ensures
        rat[i].0 == s[i].0,
        s[i].0 < n,
        y[s[i].0 as int] != 0,
        is_reduced(rat[i].1 as int, rat[i].2 as int, y[s[i].0 as int], y[f]),
{
    assert(lift::is_residues(va, vb, s[i]));
    let c: int = s[i].0 as int;
    if profile::is_pivot(va.idx@, c) {
        let k: int = choose|k: int| 0 <= k < va.idx@.len() && #[trigger] va.idx@[k] == c;
        assert(va.idx@[k] < n);
    } else {
        let k: int = choose|k: int| 0 <= k < vb.idx@.len() && #[trigger] vb.idx@[k] == c;
        assert(vb.idx@[k] < n);
    }
    lemma_support(mat, n, piv, f, va, vb, pa, pb, bound, y, c);
    let (nn, d): (int, int) = reduced_form(y[c], y[f]);
    lemma_coordinate_lifts(mat, n, piv, f, va, vb, pa, pb, bound, y, c, nn, d);
    assert(rat[i].0 == s[i].0);
    lemma_lift_unique(
        nn,
        d,
        rat[i].1 as int,
        rat[i].2 as int,
        s[i].1 as int,
        s[i].2 as int,
        pa,
        pb,
        bound,
    );
}

/// `rat` holds nonzero coordinates of `y`, each over `l`, reduced.
spec fn holds_fractions(rat: Seq<(u32, i128, u128)>, y: Seq<int>, l: int) -> bool {
    forall|i: int|
        0 <= i < rat.len() ==> (#[trigger] rat[i]).0 < y.len() && y[rat[i].0 as int] != 0
            && is_reduced(rat[i].1 as int, rat[i].2 as int, y[rat[i].0 as int], l)
}

/// The coordinates over the common denominator are proportional to `y`, and the common
/// denominator divides `l`.
proof fn lemma_scaled(rat: Seq<(u32, i128, u128)>, y: Seq<int>, l: int)
    requires
        l != 0,
        holds_fractions(rat, y, l),
    ensures
        clearing::proper(rat),
        1 <= clearing::den_lcm(rat, rat.len() as int) <= nt::abs(l),
        forall|j: int| 0 <= j <= rat.len() ==> #[trigger] clearing::den_lcm(rat, j) <= nt::abs(l),
        forall|i: int|
            0 <= i < rat.len() ==> #[trigger] clearing::scaled(rat, i) * l == y[rat[i].0 as int]
                * clearing::den_lcm(rat, rat.len() as int),
        forall|i: int|
            0 <= i < rat.len() ==> clearing::den_lcm(rat, rat.len() as int) as int
                / (#[trigger] rat[i]).2 as int <= nt::abs(l),
{
    let m: int = nt::abs(l);
    let len: int = rat.len() as int;
    assert(clearing::proper(rat));
    assert forall|i: int| 0 <= i < rat.len() implies nt::divides(
        (#[trigger] rat[i]).2 as int,
        m,
    ) by {
        let nn: int = rat[i].1 as int;
        let d: int = rat[i].2 as int;
        let yc: int = y[rat[i].0 as int];
        let s: int = if l < 0 {
            -1
        } else {
            1
        };
        assert(nn * m == (s * yc) * d) by (nonlinear_arith)
            requires
                nn * l == yc * d,
                (l < 0 && s == -1 && m == -l) || (l >= 0 && s == 1 && m == l),
        ;
        fraction::lemma_den_divides(nn, d, s * yc, m);
    }
    assert forall|j: int| 0 <= j <= rat.len() implies #[trigger] clearing::den_lcm(rat, j) <= m by {
        lemma_den_lcm_divides(rat, j, m);
        clearing::lemma_den_lcm(rat, j);
        nt::divides_le(clearing::den_lcm(rat, j) as int, m);
    }
    clearing::lemma_den_lcm(rat, len);
    let big: int = clearing::den_lcm(rat, len) as int;
    assert forall|i: int| 0 <= i < rat.len() implies #[trigger] clearing::scaled(rat, i) * l
        == y[rat[i].0 as int] * big && big / rat[i].2 as int <= m by {
        let nn: int = rat[i].1 as int;
        let d: int = rat[i].2 as int;
        let yc: int = y[rat[i].0 as int];
        assert(nt::divides(d, big));
        let q: int = nt::divides_quotient(d, big);
        vstd::arithmetic::div_mod::lemma_div_multiples_vanish(q, d);
        assert(d * q == q * d) by (nonlinear_arith);
        assert(big / d == q);
        assert((nn * q) * l == yc * big) by (nonlinear_arith)
            requires
                nn * l == yc * d,
                big == q * d,
        {
            assert((nn * q) * l == q * (nn * l));
            assert(q * (yc * d) == yc * (q * d));
        }
        assert(q <= big) by (nonlinear_arith)
            requires
                big == q * d,
                d >= 1,
                big >= 1,
        ;
    }
    assert forall|i: int| 0 <= i < rat.len() implies big / (#[trigger] rat[i]).2 as int <= m by {
        let t: int = clearing::scaled(rat, i);
        assert(clearing::scaled(rat, i) * l == y[rat[i].0 as int] * big);
    }
}

/// Clearing the denominators of a narrow vector stays within 128 bits.
proof fn lemma_clears(rat: Seq<(u32, i128, u128)>, y: Seq<int>, l: int)
    requires
        l != 0,
        -i128::MAX <= l <= i128::MAX,
        holds_fractions(rat, y, l),
        is_narrow(y),
    ensures
        clearing::clears(rat),
{
    lemma_scaled(rat, y, l);
    let len: int = rat.len() as int;
    let big: int = clearing::den_lcm(rat, len) as int;
    assert forall|i: int| 0 <= i < len implies -i128::MAX <= #[trigger] clearing::scaled(rat, i)
        <= i128::MAX by {
        let yc: int = y[rat[i].0 as int];
        let v: int = clearing::scaled(rat, i);
        assert(rat[i].0 < y.len());
        assert(-i128::MAX <= yc <= i128::MAX);
        assert(nt::abs(v) <= nt::abs(yc)) by (nonlinear_arith)
            requires
                v * l == yc * big,
                1 <= big <= nt::abs(l),
                l != 0,
        {
            assert(nt::abs(v) * nt::abs(l) == nt::abs(yc) * big);
            assert(nt::abs(yc) * big <= nt::abs(yc) * nt::abs(l));
        }
    }
    assert forall|j: int| 0 <= j < len implies !#[trigger] clearing::lcm_fails(rat, j) by {
        assert(clearing::den_lcm(rat, j + 1) <= nt::abs(l));
    }
    assert forall|j: int| 0 <= j < len implies !#[trigger] clearing::scale_fails(rat, j) by {
        assert(big / rat[j].2 as int <= nt::abs(l));
        assert(clearing::scaled(rat, j) <= i128::MAX);
    }
    clearing::lemma_content(rat, len);
    let g: int = clearing::content(rat, len) as int;
    assert forall|j: int| 0 <= j < len implies clearing::fits(
        #[trigger] clearing::primitive(rat, j),
    ) by {
        let v: int = clearing::scaled(rat, j);
        if g > 0 {
            assert(nt::divides(g, v));
            let q: int = nt::divides_quotient(g, v);
            vstd::arithmetic::div_mod::lemma_div_multiples_vanish(q, g);
            assert(g * q == q * g) by (nonlinear_arith);
            assert(nt::abs(q) <= nt::abs(v)) by (nonlinear_arith)
                requires
                    v == q * g,
                    g >= 1,
            ;
        }
    }
}

/// The primitive form, times the content, is the coordinate over the common denominator
/// up to sign.
pub(crate) proof fn lemma_primitive_times_content(rat: Seq<(u32, i128, u128)>, i: int)
    requires
        0 <= i < rat.len(),
        clearing::content(rat, rat.len() as int) > 0,
    ensures
        clearing::primitive(rat, i) * clearing::content(rat, rat.len() as int) == (
        if clearing::leads_negative(rat) {
            -1
        } else {
            1int
        }) * clearing::scaled(rat, i),
{
    let len: int = rat.len() as int;
    let g: int = clearing::content(rat, len) as int;
    let v: int = clearing::scaled(rat, i);
    clearing::lemma_content(rat, len);
    assert(nt::divides(g, v));
    let q: int = nt::divides_quotient(g, v);
    vstd::arithmetic::div_mod::lemma_div_multiples_vanish(q, g);
    assert(g * q == q * g) by (nonlinear_arith);
    assert((-q) * g == -1 * (q * g)) by (nonlinear_arith);
    assert(1 * v == v) by (nonlinear_arith);
}

/// The vector that the lift gives.
spec fn given(out: Seq<(u32, i128)>, n: int) -> Seq<int> {
    Seq::new(n as nat, |c: int| value(out, c))
}

/// The vector that the lift gives is proportional to `y`, and primitive.
proof fn lemma_given(
    y: Seq<int>,
    l: int,
    f: int,
    rat: Seq<(u32, i128, u128)>,
    out: Seq<(u32, i128)>,
) -> (ab: (int, int))
    requires
        0 <= f < y.len() <= 0x1_0000_0000,
        l == y[f],
        l != 0,
        holds_fractions(rat, y, l),
        forall|i: int, j: int|
            0 <= i < j < rat.len() ==> (#[trigger] rat[i]).0 < (#[trigger] rat[j]).0,
        forall|c: int|
            0 <= c < y.len() && #[trigger] y[c] != 0 ==> exists|i: int|
                0 <= i < rat.len() && (#[trigger] rat[i]).0 == c,
        clearing::is_primitive(rat, out),
        leads_positive(y),
    ensures
        ab.0 != 0,
        ab.1 != 0,
        forall|c: int|
            0 <= c < y.len() ==> #[trigger] given(out, y.len() as int)[c] * ab.0 == y[c] * ab.1,
        is_primitive(given(out, y.len() as int)),
        exists|c: int| 0 <= c < y.len() && #[trigger] given(out, y.len() as int)[c] > 0 && y[c] > 0,
{
    let n: int = y.len() as int;
    let u: Seq<int> = given(out, n);
    let len: int = rat.len() as int;
    lemma_scaled(rat, y, l);
    let big: int = clearing::den_lcm(rat, len) as int;
    clearing::lemma_content(rat, len);
    let g: int = clearing::content(rat, len) as int;
    assert forall|i: int| 0 <= i < len implies #[trigger] clearing::scaled(rat, i) != 0 by {
        let v: int = clearing::scaled(rat, i);
        let yc: int = y[rat[i].0 as int];
        assert(rat[i].0 < y.len() && yc != 0);
        assert(v * l == yc * big);
        assert(v != 0) by (nonlinear_arith)
            requires
                v * l == yc * big,
                yc != 0,
                big >= 1,
        ;
    }
    let fi: int = choose|i: int| 0 <= i < rat.len() && (#[trigger] rat[i]).0 == f;
    assert(y[f] != 0);
    assert(rat[fi].0 == f);
    assert(g > 0) by {
        assert(clearing::scaled(rat, fi) != 0);
    }
    let s: int = if clearing::leads_negative(rat) {
        -1
    } else {
        1
    };
    let a: int = g * l;
    let b: int = s * big;
    assert(a != 0 && b != 0) by (nonlinear_arith)
        requires
            a == g * l,
            b == s * big,
            g > 0,
            l != 0,
            s == 1 || s == -1,
            big >= 1,
    ;
    assert forall|i: int, j: int| 0 <= i < j < out.len() implies (#[trigger] out[i]).0 < (
    #[trigger] out[j]).0 by {
        assert(rat[i].0 < rat[j].0);
    }
    assert forall|i: int| 0 <= i < len implies u[(#[trigger] rat[i]).0 as int]
        == clearing::primitive(rat, i) by {
        assert(out[i].0 == rat[i].0);
        lemma_value_listed(out, i);
    }
    assert forall|c: int| 0 <= c < n implies #[trigger] u[c] * a == y[c] * b by {
        if y[c] != 0 {
            let i: int = choose|i: int| 0 <= i < rat.len() && (#[trigger] rat[i]).0 == c;
            assert(rat[i].0 == c);
            lemma_primitive_times_content(rat, i);
            let uc: int = u[c];
            let v: int = clearing::scaled(rat, i);
            let yc: int = y[c];
            assert(uc == clearing::primitive(rat, i));
            assert(v * l == yc * big);
            assert(uc * g == s * v);
            assert(uc * a == yc * b) by (nonlinear_arith)
                requires
                    uc * g == s * v,
                    v * l == yc * big,
                    a == g * l,
                    b == s * big,
            {
                assert(uc * (g * l) == (uc * g) * l);
                assert((s * v) * l == s * (v * l));
                assert(s * (yc * big) == yc * (s * big));
            }
        } else {
            assert forall|i: int| 0 <= i < out.len() implies (#[trigger] out[i]).0 != c as u32 by {
                assert(out[i].0 == rat[i].0);
                assert(y[rat[i].0 as int] != 0);
            }
            lemma_value_unlisted(out, c as u32);
            assert(0 * a == 0 && 0 * b == 0) by (nonlinear_arith);
        }
    }
    assert forall|h: int| h > 1 implies !#[trigger] divides_all(h, u) by {
        if divides_all(h, u) {
            let hg: int = h * g;
            assert(hg > g) by (nonlinear_arith)
                requires
                    hg == h * g,
                    h > 1,
                    g > 0,
            ;
            assert forall|i: int| 0 <= i < len implies nt::divides(
                hg,
                #[trigger] clearing::scaled(rat, i),
            ) by {
                let c: int = rat[i].0 as int;
                assert(c < n);
                assert(nt::divides(h, u[c]));
                let k: int = nt::divides_quotient(h, u[c]);
                lemma_primitive_times_content(rat, i);
                let v: int = clearing::scaled(rat, i);
                assert(u[c] == clearing::primitive(rat, i));
                assert(v == (s * k) * hg) by (nonlinear_arith)
                    requires
                        (k * h) * g == s * v,
                        s == 1 || s == -1,
                        hg == h * g,
                {
                    assert((k * h) * g == k * (h * g));
                    assert(s * (s * v) == v);
                    assert(s * (k * hg) == (s * k) * hg);
                }
                nt::divides_from_quotient(hg, v, s * k);
            }
            lemma_common_content(rat, len, hg);
            nt::divides_le(hg, g);
        }
    }
    // The first listed coordinate.
    let c0: int = rat[0].0 as int;
    assert(u[c0] > 0 && y[c0] > 0) by {
        lemma_primitive_times_content(rat, 0);
        let v: int = clearing::scaled(rat, 0);
        let u0: int = clearing::primitive(rat, 0);
        assert(v != 0);
        assert(clearing::leads_at(rat, 0));
        clearing::lemma_lead(rat, 0);
        assert(u[c0] == u0);
        assert(u0 > 0) by (nonlinear_arith)
            requires
                u0 * g == s * v,
                g > 0,
                s * v > 0,
        ;
        assert(is_zero_before(y, c0)) by {
            assert forall|j: int| 0 <= j < c0 implies #[trigger] y[j] == 0 by {
                if y[j] != 0 {
                    let i: int = choose|i: int| 0 <= i < rat.len() && (#[trigger] rat[i]).0 == j;
                    assert(rat[i].0 == j);
                    if i > 0 {
                        assert(rat[0].0 < rat[i].0);
                    }
                }
            }
        }
        assert(y[c0] != 0);
    }
    (a, b)
}

/// The fractions that the lift finds are the nonzero coordinates of `y` over `y[f]`, all
/// of them, in order.
proof fn lemma_all_fractions(
    mat: Seq<Seq<int>>,
    n: int,
    piv: Seq<u32>,
    f: int,
    va: SparseVec,
    vb: SparseVec,
    pa: int,
    pb: int,
    bound: int,
    y: Seq<int>,
    s: Seq<(u32, u64, u64)>,
    rat: Seq<(u32, i128, u128)>,
)
    requires
        is_setting(mat, n, piv, f, va, vb, pa, pb, bound, y),
        lift::is_union(va, vb, s),
        lift::lifts(s, rat, s.len() as int, pa, pb, bound),
    ensures
        rat.len() == s.len(),
        holds_fractions(rat, y, y[f]),
        forall|i: int, j: int|
            0 <= i < j < rat.len() ==> (#[trigger] rat[i]).0 < (#[trigger] rat[j]).0,
        forall|c: int|
            0 <= c < y.len() && #[trigger] y[c] != 0 ==> exists|i: int|
                0 <= i < rat.len() && (#[trigger] rat[i]).0 == c,
{
    assert forall|i: int| 0 <= i < rat.len() implies (#[trigger] rat[i]).0 < y.len()
        && y[rat[i].0 as int] != 0 && is_reduced(
        rat[i].1 as int,
        rat[i].2 as int,
        y[rat[i].0 as int],
        y[f],
    ) by {
        lemma_fractions(mat, n, piv, f, va, vb, pa, pb, bound, y, s, rat, i);
    }
    assert forall|i: int, j: int| 0 <= i < j < rat.len() implies (#[trigger] rat[i]).0 < (
    #[trigger] rat[j]).0 by {
        assert(s[i].0 < s[j].0);
        assert(rat[i].0 == s[i].0);
        assert(rat[j].0 == s[j].0);
    }
    assert forall|c: int| 0 <= c < y.len() && #[trigger] y[c] != 0 implies exists|i: int|
        0 <= i < rat.len() && (#[trigger] rat[i]).0 == c by {
        lemma_support(mat, n, piv, f, va, vb, pa, pb, bound, y, c);
        let i: int = choose|i: int| 0 <= i < s.len() && (#[trigger] s[i]).0 == c;
        assert(rat[i].0 == s[i].0);
    }
}

/// Residues of an exact vector in range are not refused.
proof fn lemma_not_refused(
    mat: Seq<Seq<int>>,
    n: int,
    piv: Seq<u32>,
    f: int,
    va: SparseVec,
    vb: SparseVec,
    pa: int,
    pb: int,
    bound: int,
    y: Seq<int>,
    coord: u32,
)
    requires
        is_setting(mat, n, piv, f, va, vb, pa, pb, bound, y),
    ensures
        !lift::is_refused(va, vb, pa, pb, bound, coord),
{
    if lift::is_refused(va, vb, pa, pb, bound, coord) {
        let (s, rat, i): (Seq<(u32, u64, u64)>, Seq<(u32, i128, u128)>, int) = choose|
            s: Seq<(u32, u64, u64)>,
            rat: Seq<(u32, i128, u128)>,
            i: int,
        |
            #![trigger lift::is_union(va, vb, s), lift::lifts(s, rat, i, pa, pb, bound)]
            #![trigger lift::is_union(va, vb, s), clearing::clearing_fails_at(rat, i)]
            lift::is_union(va, vb, s) && 0 <= i < s.len() && coord == s[i].0 && {
                ||| lift::lifts(s, rat, i, pa, pb, bound) && lift::has_no_lift(
                    s[i].1 as int,
                    s[i].2 as int,
                    pa,
                    pb,
                    bound,
                )
                ||| lift::lifts(s, rat, s.len() as int, pa, pb, bound)
                    && clearing::clearing_fails_at(rat, i)
            };
        assert(lift::is_residues(va, vb, s[i]));
        let c: int = s[i].0 as int;
        if profile::is_pivot(va.idx@, c) {
            let j: int = choose|j: int| 0 <= j < va.idx@.len() && #[trigger] va.idx@[j] == c;
            assert(va.idx@[j] < n);
        } else {
            let j: int = choose|j: int| 0 <= j < vb.idx@.len() && #[trigger] vb.idx@[j] == c;
            assert(vb.idx@[j] < n);
        }
        let (nn, d): (int, int) = reduced_form(y[c], y[f]);
        lemma_coordinate_lifts(mat, n, piv, f, va, vb, pa, pb, bound, y, c, nn, d);
        assert(lift::is_lift(nn, d, s[i].1 as int, s[i].2 as int, pa, pb, bound));
        lemma_all_fractions(mat, n, piv, f, va, vb, pa, pb, bound, y, s, rat);
        lemma_clears(rat, y, y[f]);
    }
}

/// Lifting recovers exact kernel vectors. Where two primes have the rank profile of an
/// exact kernel vector in canonical integer form, and that vector is in the
/// reconstruction range, the residues of its free column are not refused, and they lift
/// to that vector and no other.
pub proof fn law_lift_recovers(
    mat: Seq<Seq<int>>,
    n: int,
    a: ModpNullspace,
    b: ModpNullspace,
    k: int,
    y: Seq<int>,
    bound: int,
)
    requires
        nt::is_prime(a.prime as int),
        nt::is_prime(b.prime as int),
        a.prime != b.prime,
        a.pivot_cols@ == b.pivot_cols@,
        0 <= n <= 0x1_0000_0000,
        linalg::shaped(mat, n),
        a.is_nullspace_of(mat, n, a.prime as int),
        b.is_nullspace_of(mat, n, b.prime as int),
        lift::is_bound(bound, lift::modulus(a, b)),
        0 <= k < a.basis@.len(),
        is_exact_vector(mat, n, a.pivot_cols@, profile::free_cols(a.pivot_cols@, n)[k], y),
        in_range(y, y[profile::free_cols(a.pivot_cols@, n)[k]], bound),
        is_narrow(y),
    ensures
        forall|out: Seq<(u32, i128)>| #[trigger]
            lift::is_lifted(
                a.basis@[k],
                b.basis@[k],
                a.prime as int,
                b.prime as int,
                bound,
                out,
            ) ==> spells(out, y),
        forall|coord: u32|
            !#[trigger] lift::is_refused(
                a.basis@[k],
                b.basis@[k],
                a.prime as int,
                b.prime as int,
                bound,
                coord,
            ),
{
    let piv: Seq<u32> = a.pivot_cols@;
    let f: int = profile::free_cols(piv, n)[k];
    profile::lemma_free_cols(piv, n);
    let va: SparseVec = a.basis@[k];
    let vb: SparseVec = b.basis@[k];
    let pa: int = a.prime as int;
    let pb: int = b.prime as int;
    let l: int = y[f];
    assert(is_setting(mat, n, piv, f, va, vb, pa, pb, bound, y));
    assert forall|out: Seq<(u32, i128)>| #[trigger]
        lift::is_lifted(va, vb, pa, pb, bound, out) implies spells(out, y) by {
        let (s, rat): (Seq<(u32, u64, u64)>, Seq<(u32, i128, u128)>) = choose|
            s: Seq<(u32, u64, u64)>,
            rat: Seq<(u32, i128, u128)>,
        |
            #![trigger lift::is_union(va, vb, s), clearing::is_primitive(rat, out)]
            lift::is_union(va, vb, s) && lift::lifts(s, rat, s.len() as int, pa, pb, bound)
                && clearing::is_primitive(rat, out);
        lemma_all_fractions(mat, n, piv, f, va, vb, pa, pb, bound, y, s, rat);
        let (x, z): (int, int) = lemma_given(y, l, f, rat, out);
        let u: Seq<int> = given(out, n);
        lemma_parallel(u, y, x, z);
        let c: int = choose|c: int| 0 <= c < y.len() && #[trigger] u[c] > 0 && y[c] > 0;
        assert(u[c] > 0);
        assert forall|j: int| 0 <= j < y.len() implies value(out, j) == #[trigger] y[j] by {
            assert(u[j] == y[j]);
        }
    }
    assert forall|coord: u32| !#[trigger] lift::is_refused(va, vb, pa, pb, bound, coord) by {
        if lift::is_refused(va, vb, pa, pb, bound, coord) {
            lemma_not_refused(mat, n, piv, f, va, vb, pa, pb, bound, y, coord);
        }
    }
}

} // verus!
