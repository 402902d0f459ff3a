//! Rational reconstruction: the fraction that a residue represents.

use crate::nt;
use vstd::arithmetic::div_mod::lemma_fundamental_div_mod;
use vstd::prelude::*;

verus! {

/// `n / d` is a reduced fraction with `|n|, d <= bound` that `x` represents modulo `m`.
pub open spec fn is_fraction(n: int, d: int, x: int, m: int, bound: int) -> bool {
    &&& 0 < d <= bound
    &&& -bound <= n <= bound
    &&& nt::gcd(nt::abs(n) as nat, d as nat) == 1
    &&& nt::cong(n, x * d, m)
}

/// The integer square root.
pub fn isqrt_u128(v: u128) -> (s: u128)
    ensures
        s * s <= v < (s + 1) * (s + 1),
{
    if v == 0 {
        return 0;
    }
    let mut x: u128 = 1;
    while x < 0x1_0000_0000_0000_0000u128 && x <= v / x
        invariant
            1 <= x <= 0x1_0000_0000_0000_0000u128,
        ensures
            1 <= x <= 0x1_0000_0000_0000_0000u128,
            x == 0x1_0000_0000_0000_0000u128 || x > v / x,
        decreases 0x1_0000_0000_0000_0000u128 * 2 - x,
    {
        x = if x > 0x8000_0000_0000_0000u128 {
            0x1_0000_0000_0000_0000u128
        } else {
            x * 2
        };
    }
    proof {
        if x == 0x1_0000_0000_0000_0000u128 {
            assert((x + 1) * (x + 1) > v) by (nonlinear_arith)
                requires
                    x == 0x1_0000_0000_0000_0000u128,
                    v <= 0xffff_ffff_ffff_ffff_ffff_ffff_ffff_ffffu128,
            ;
        } else {
            lemma_fundamental_div_mod(v as int, x as int);
            let q: int = v as int / x as int;
            assert((x + 1) * (x + 1) > v) by (nonlinear_arith)
                requires
                    v == x * q + v as int % x as int,
                    0 <= v as int % (x as int) < x,
                    q < x,
                    x >= 1,
            ;
        }
    }
    loop
        invariant
            v >= 1,
            1 <= x <= 0x1_0000_0000_0000_0000u128,
            (x + 1) * (x + 1) > v,
        decreases x,
    {
        let q: u128 = v / x;
        proof {
            lemma_fundamental_div_mod(v as int, x as int);
            assert(v < x * (q + 1)) by (nonlinear_arith)
                requires
                    v == x * q + v as int % x as int,
                    0 <= v as int % (x as int) < x,
            ;
            assert(q <= x + 2) by (nonlinear_arith)
                requires
                    v == x * q + v as int % x as int,
                    0 <= v as int % x as int,
                    (x + 1) * (x + 1) > v,
                    x >= 1,
            ;
        }
        let y: u128 = (x + q) / 2;
        if y >= x {
            proof {
                assert(q >= x);
                assert(x * x <= v) by (nonlinear_arith)
                    requires
                        v == x * q + v as int % x as int,
                        0 <= v as int % x as int,
                        q >= x,
                        x >= 1,
                ;
            }
            return x;
        }
        proof {
            lemma_mean_bound(x as int, q as int, y as int, v as int);
            assert(y >= 1) by (nonlinear_arith)
                requires
                    (y + 1) * (y + 1) > v,
                    v >= 1,
                    y >= 0,
            ;
        }
        x = y;
    }
}

/// One Newton step does not fall below the square root.
proof fn lemma_mean_bound(x: int, q: int, y: int, v: int)
    requires
        x >= 1,
        q >= 0,
        v < x * (q + 1),
        y == (x + q) / 2,
    ensures
        (y + 1) * (y + 1) > v,
{
    let s: int = x + q + 1;
    assert(2 * (y + 1) >= s);
    assert(s * s >= 4 * (x * (q + 1))) by (nonlinear_arith)
        requires
            s == x + q + 1,
    ;
    let t: int = 2 * (y + 1);
    assert(t * t >= s * s) by (nonlinear_arith)
        requires
            t >= s,
            s >= 0,
    ;
    assert(t * t == 4 * ((y + 1) * (y + 1))) by (nonlinear_arith)
        requires
            t == 2 * (y + 1),
    ;
}

/// The greatest common divisor.
pub fn gcd_u128(a: u128, b: u128) -> (g: u128)
    ensures
        g == nt::gcd(a as nat, b as nat),
{
    let mut x: u128 = a;
    let mut y: u128 = b;
    while y != 0
        invariant
            nt::gcd(x as nat, y as nat) == nt::gcd(a as nat, b as nat),
        decreases y,
    {
        let r: u128 = x % y;
        x = y;
        y = r;
    }
    x
}

/// The state of the remainder sequence of `(m, x)`: the cofactors `t0` and `t1` have
/// opposite signs and sizes `a0` and `a1`.
spec fn euclid_state(
    r0: int,
    r1: int,
    t0: int,
    t1: int,
    a0: int,
    a1: int,
    s: int,
    x: int,
    m: int,
) -> bool {
    &&& s == 1 || s == -1
    &&& a0 >= 0
    &&& a1 >= 0
    &&& t1 == s * a1
    &&& t0 == -s * a0
    &&& r0 * a1 + r1 * a0 == m
    &&& nt::cong(r0, x * t0, m)
    &&& nt::cong(r1, x * t1, m)
}

/// One division step of the remainder sequence.
proof fn lemma_euclid_step(
    r0: int,
    r1: int,
    t0: int,
    t1: int,
    a0: int,
    a1: int,
    s: int,
    x: int,
    m: int,
    q: int,
)
    requires
        m > 0,
        q >= 0,
        euclid_state(r0, r1, t0, t1, a0, a1, s, x, m),
    ensures
        euclid_state(r1, r0 - q * r1, t1, t0 - q * t1, a1, a0 + q * a1, -s, x, m),
{
    let r2: int = r0 - q * r1;
    let t2: int = t0 - q * t1;
    let a2: int = a0 + q * a1;
    assert(q * a1 >= 0) by (nonlinear_arith)
        requires
            q >= 0,
            a1 >= 0,
    ;
    assert(q * t1 == s * (q * a1)) by (nonlinear_arith)
        requires
            t1 == s * a1,
    ;
    assert(t2 == (-s) * a2) by (nonlinear_arith)
        requires
            t2 == -s * a0 - s * (q * a1),
            a2 == a0 + q * a1,
    ;
    assert(t1 == -(-s) * a1) by (nonlinear_arith)
        requires
            t1 == s * a1,
    ;
    assert(r1 * a2 == r1 * a0 + (q * r1) * a1) by (nonlinear_arith)
        requires
            a2 == a0 + q * a1,
    ;
    assert(r2 * a1 == r0 * a1 - (q * r1) * a1) by (nonlinear_arith)
        requires
            r2 == r0 - q * r1,
    ;
    nt::cong_scale(q, r1, x * t1, m);
    nt::cong_minus(r0, x * t0, q * r1, q * (x * t1), m);
    assert(x * t0 - q * (x * t1) == x * t2) by (nonlinear_arith)
        requires
            t2 == t0 - q * t1,
    ;
}

/// A fraction in range is the stopping convergent of the remainder sequence.
proof fn lemma_convergent(
    r0: int,
    r1: int,
    t0: int,
    t1: int,
    a0: int,
    a1: int,
    s: int,
    x: int,
    m: int,
    bound: int,
    n: int,
    d: int,
)
    requires
        m > 2,
        0 <= bound,
        2 * (bound * bound) <= m,
        0 <= r1 <= bound < r0,
        a1 >= 1,
        a0 == 0 ==> a1 == 1,
        euclid_state(r0, r1, t0, t1, a0, a1, s, x, m),
        is_fraction(n, d, x, m, bound),
    ensures
        d == a1,
        n == s * r1,
{
    // n * t1 - r1 * d and n * t0 - r0 * d are multiples of m.
    let g: int = lemma_cross(n, d, r1, t1, x, m);
    let h: int = lemma_cross(n, d, r0, t0, x, m);
    let al: int = s * g;
    let be: int = -(s * h);
    // The determinant r0 * t1 - r1 * t0 is s * m.
    assert(r0 * t1 - r1 * t0 == s * m) by (nonlinear_arith)
        requires
            t1 == s * a1,
            t0 == -s * a0,
            r0 * a1 + r1 * a0 == m,
    ;
    lemma_coordinates(n, d, r0, r1, t0, t1, g, h, s, m);
    assert(n == al * r0 + be * r1);
    assert(d == al * t0 + be * t1);
    if al == 0 {
        assert(n == be * r1) by (nonlinear_arith)
            requires
                n == al * r0 + be * r1,
                al == 0,
        ;
        assert(d == be * t1) by (nonlinear_arith)
            requires
                d == al * t0 + be * t1,
                al == 0,
        ;
        assert(d == (s * be) * a1) by (nonlinear_arith)
            requires
                d == be * t1,
                t1 == s * a1,
        ;
        let b: int = s * be;
        assert(b > 0) by (nonlinear_arith)
            requires
                d == b * a1,
                d > 0,
                a1 >= 1,
        ;
        assert(n == b * (s * r1)) by (nonlinear_arith)
            requires
                n == be * r1,
                b == s * be,
                s == 1 || s == -1,
        ;
        // b divides both n and d, which are coprime.
        let na: nat = nt::abs(n) as nat;
        assert(na == b * r1) by (nonlinear_arith)
            requires
                n == b * (s * r1),
                s == 1 || s == -1,
                b > 0,
                r1 >= 0,
                na == nt::abs(n),
        {
            if s == 1 {
                assert(n == b * r1);
                assert(b * r1 >= 0);
            } else {
                assert(n == -(b * r1));
                assert(b * r1 >= 0);
            }
        }
        assert(r1 * b == b * r1) by (nonlinear_arith);
        assert(a1 * b == b * a1) by (nonlinear_arith);
        nt::divides_from_quotient(b, na as int, r1);
        nt::divides_from_quotient(b, d, a1);
        nt::common_divisor_divides_gcd(b, na, d as nat);
        nt::divides_le(b, 1);
        assert(b == 1);
        assert(d == a1 && n == s * r1);
    } else {
        lemma_no_other_fraction(r0, r1, t1, a0, a1, s, bound, m, n, d, g, al, be, t0);
    }
}

/// `n * t - r * d` is a multiple of `m` when both pairs represent `x`.
proof fn lemma_cross(n: int, d: int, r: int, t: int, x: int, m: int) -> (k: int)
    requires
        m > 0,
        nt::cong(n, x * d, m),
        nt::cong(r, x * t, m),
    ensures
        n * t - r * d == k * m,
{
    let u: int = nt::cong_quotient(n, x * d, m);
    let v: int = nt::cong_quotient(r, x * t, m);
    assert(n * t == (x * d) * t + (u * t) * m) by (nonlinear_arith)
        requires
            n == x * d + u * m,
    ;
    assert(r * d == (x * t) * d + (v * d) * m) by (nonlinear_arith)
        requires
            r == x * t + v * m,
    ;
    assert((x * d) * t == (x * t) * d) by (nonlinear_arith);
    assert((u * t) * m - (v * d) * m == (u * t - v * d) * m) by (nonlinear_arith);
    u * t - v * d
}

/// Two outer factors change places.
proof fn lemma_factors(x: int, y: int, z: int)
    ensures
        x * (y * z) == y * (x * z),
{
    vstd::arithmetic::mul::lemma_mul_is_associative(x, y, z);
    vstd::arithmetic::mul::lemma_mul_is_commutative(x, y);
    vstd::arithmetic::mul::lemma_mul_is_associative(y, x, z);
}

/// A multiple of a determinant, by its two columns.
proof fn lemma_columns(n: int, d: int, r0: int, r1: int, t0: int, t1: int)
    ensures
        n * (r0 * t1 - r1 * t0) == r0 * (n * t1 - r1 * d) - r1 * (n * t0 - r0 * d),
{
    vstd::arithmetic::mul::lemma_mul_is_distributive_sub(n, r0 * t1, r1 * t0);
    vstd::arithmetic::mul::lemma_mul_is_distributive_sub(r0, n * t1, r1 * d);
    vstd::arithmetic::mul::lemma_mul_is_distributive_sub(r1, n * t0, r0 * d);
    lemma_factors(n, r0, t1);
    lemma_factors(n, r1, t0);
    lemma_factors(r0, r1, d);
}

/// The coordinates of `(n, d)` in the basis `(r0, t0)`, `(r1, t1)`.
proof fn lemma_coordinates(
    n: int,
    d: int,
    r0: int,
    r1: int,
    t0: int,
    t1: int,
    g: int,
    h: int,
    s: int,
    m: int,
)
    requires
        m > 0,
        s == 1 || s == -1,
        r0 * t1 - r1 * t0 == s * m,
        n * t1 - r1 * d == g * m,
        n * t0 - r0 * d == h * m,
    ensures
        n == (s * g) * r0 + (-(s * h)) * r1,
        d == (s * g) * t0 + (-(s * h)) * t1,
{
    lemma_columns(n, d, r0, r1, t0, t1);
    assert(d * (r0 * t1 - r1 * t0) == t0 * (n * t1 - r1 * d) - t1 * (n * t0 - r0 * d)) by {
        vstd::arithmetic::mul::lemma_mul_is_distributive_sub(d, r0 * t1, r1 * t0);
        vstd::arithmetic::mul::lemma_mul_is_distributive_sub(t0, n * t1, r1 * d);
        vstd::arithmetic::mul::lemma_mul_is_distributive_sub(t1, n * t0, r0 * d);
        lemma_factors(t0, t1, n);
        vstd::arithmetic::mul::lemma_mul_is_commutative(n, t0);
        vstd::arithmetic::mul::lemma_mul_is_commutative(n, t1);
        lemma_factors(d, r0, t1);
        lemma_factors(d, r1, t0);
        lemma_factors(t1, r0, d);
        lemma_factors(t0, r1, d);
        vstd::arithmetic::mul::lemma_mul_is_commutative(d, t1);
        vstd::arithmetic::mul::lemma_mul_is_commutative(d, t0);
    }
    assert(r0 * (g * m) - r1 * (h * m) == (g * r0 - h * r1) * m) by (nonlinear_arith);
    assert(t0 * (g * m) - t1 * (h * m) == (g * t0 - h * t1) * m) by (nonlinear_arith);
    assert(n * (s * m) == (s * n) * m) by (nonlinear_arith);
    assert(d * (s * m) == (s * d) * m) by (nonlinear_arith);
    assert(s * n == g * r0 - h * r1) by (nonlinear_arith)
        requires
            (s * n) * m == (g * r0 - h * r1) * m,
            m > 0,
    ;
    assert(s * d == g * t0 - h * t1) by (nonlinear_arith)
        requires
            (s * d) * m == (g * t0 - h * t1) * m,
            m > 0,
    ;
    if s == 1 {
        assert(s * n == n && s * d == d) by (nonlinear_arith)
            requires
                s == 1,
        ;
        assert((s * g) * r0 == g * r0) by (nonlinear_arith)
            requires
                s == 1,
        ;
        assert((s * g) * t0 == g * t0) by (nonlinear_arith)
            requires
                s == 1,
        ;
        assert((-(s * h)) * r1 == -(h * r1)) by (nonlinear_arith)
            requires
                s == 1,
        ;
        assert((-(s * h)) * t1 == -(h * t1)) by (nonlinear_arith)
            requires
                s == 1,
        ;
    } else {
        assert(s * n == -n && s * d == -d) by (nonlinear_arith)
            requires
                s == -1,
        ;
        assert((s * g) * r0 == -(g * r0)) by (nonlinear_arith)
            requires
                s == -1,
        ;
        assert((s * g) * t0 == -(g * t0)) by (nonlinear_arith)
            requires
                s == -1,
        ;
        assert((-(s * h)) * r1 == h * r1) by (nonlinear_arith)
            requires
                s == -1,
        ;
        assert((-(s * h)) * t1 == h * t1) by (nonlinear_arith)
            requires
                s == -1,
        ;
    }
}

/// A combination that uses the earlier convergent is out of range.
proof fn lemma_no_other_fraction(
    r0: int,
    r1: int,
    t1: int,
    a0: int,
    a1: int,
    s: int,
    bound: int,
    m: int,
    n: int,
    d: int,
    g: int,
    al: int,
    be: int,
    t0: int,
)
    requires
        m > 2,
        s == 1 || s == -1,
        2 * (bound * bound) <= m,
        0 <= r1 <= bound < r0,
        a0 >= 0,
        a1 >= 1,
        a0 == 0 ==> a1 == 1,
        t1 == s * a1,
        t0 == -s * a0,
        -bound <= n <= bound,
        0 < d <= bound,
        n == al * r0 + be * r1,
        d == al * t0 + be * t1,
        n * t1 - r1 * d == g * m,
        al == s * g,
    ensures
        al == 0,
{
    if al != 0 {
        // al and be have opposite signs, or |n| would exceed the bound.
        assert(al * be < 0) by {
            if al > 0 && be >= 0 {
                assert(al * r0 >= r0) by (nonlinear_arith)
                    requires
                        al >= 1,
                        r0 >= 0,
                ;
                assert(be * r1 >= 0) by (nonlinear_arith)
                    requires
                        be >= 0,
                        r1 >= 0,
                ;
            } else if al < 0 && be <= 0 {
                assert(al * r0 <= -r0) by (nonlinear_arith)
                    requires
                        al <= -1,
                        r0 >= 0,
                ;
                assert(be * r1 <= 0) by (nonlinear_arith)
                    requires
                        be <= 0,
                        r1 >= 0,
                ;
            } else {
                assert(al * be < 0) by (nonlinear_arith)
                    requires
                        (al > 0 && be < 0) || (al < 0 && be > 0),
                ;
            }
        }
        // so d is at least a0 + a1
        assert(al * t0 == -(s * (al * a0))) by (nonlinear_arith)
            requires
                t0 == -s * a0,
        ;
        assert(be * t1 == s * (be * a1)) by (nonlinear_arith)
            requires
                t1 == s * a1,
        ;
        let sal: int = s * al;
        let sbe: int = s * be;
        assert(s * (al * a0) == sal * a0 && s * (be * a1) == sbe * a1) by (nonlinear_arith)
            requires
                sal == s * al,
                sbe == s * be,
        ;
        assert(d == sbe * a1 - sal * a0);
        assert(sal * sbe == al * be) by (nonlinear_arith)
            requires
                sal == s * al,
                sbe == s * be,
                s == 1 || s == -1,
        ;
        assert(sbe >= 1 && sal <= -1) by {
            if sbe <= -1 && sal >= 1 {
                assert(sbe * a1 <= 0) by (nonlinear_arith)
                    requires
                        sbe <= -1,
                        a1 >= 1,
                ;
                assert(sal * a0 >= 0) by (nonlinear_arith)
                    requires
                        sal >= 1,
                        a0 >= 0,
                ;
            } else if sbe == 0 || sal == 0 {
                assert(sal * sbe == 0) by (nonlinear_arith)
                    requires
                        sbe == 0 || sal == 0,
                ;
            } else if sbe >= 1 && sal >= 1 {
                assert(sal * sbe > 0) by (nonlinear_arith)
                    requires
                        sal >= 1,
                        sbe >= 1,
                ;
            } else if sbe <= -1 && sal <= -1 {
                assert(sal * sbe > 0) by (nonlinear_arith)
                    requires
                        sal <= -1,
                        sbe <= -1,
                ;
            }
        }
        assert(sbe * a1 >= a1) by (nonlinear_arith)
            requires
                sbe >= 1,
                a1 >= 1,
        ;
        assert(sal * a0 <= -a0) by (nonlinear_arith)
            requires
                sal <= -1,
                a0 >= 0,
        ;
        assert(a0 + a1 <= d);
        // the cross product is at least m, and at most 2 * bound^2
        assert(g != 0) by {
            if g == 0 {
                assert(s * g == 0) by (nonlinear_arith)
                    requires
                        g == 0,
                ;
            }
        }
        assert(g * m >= m || g * m <= -m) by (nonlinear_arith)
            requires
                g != 0,
                m > 0,
        ;
        let bb: int = bound * bound;
        assert(-(bound * a1) <= n * t1 <= bound * a1) by (nonlinear_arith)
            requires
                -bound <= n <= bound,
                t1 == s * a1,
                s == 1 || s == -1,
                a1 >= 1,
        ;
        assert(bound * a1 <= bb) by (nonlinear_arith)
            requires
                bb == bound * bound,
                a1 <= bound,
                bound >= 0,
        ;
        assert(0 <= r1 * d <= bb) by (nonlinear_arith)
            requires
                bb == bound * bound,
                0 <= r1 <= bound,
                0 < d <= bound,
        ;
        // equality leaves only bound == 1
        assert(bound * a1 == bb);
        assert(a1 == bound) by (nonlinear_arith)
            requires
                bound * a1 == bb,
                bb == bound * bound,
                bound >= 1,
        ;
        assert(a0 == 0);
        assert(bound == 1);
        assert(bb == 1) by (nonlinear_arith)
            requires
                bb == bound * bound,
                bound == 1,
        ;
    }
}

/// Rational reconstruction by the extended Euclidean algorithm: the fraction that `x`
/// represents modulo `m`. Under the bound `2 * bound^2 <= m` it finds every fraction in
/// range.
pub fn ratrec(x: u128, m: u128, bound: u128) -> (res: Option<(i128, u128)>)
    requires
        m > 0,
    ensures
        res matches Some((n, d)) ==> is_fraction(
            n as int,
            d as int,
            x as int,
            m as int,
            bound as int,
        ),
        res is None && x < m && 2 < m <= i128::MAX && 2 * (bound * bound) <= m ==> forall|
            n: int,
            d: int,
        |
            !#[trigger] is_fraction(n, d, x as int, m as int, bound as int),
{
    let mut r0: u128 = m;
    let mut r1: u128 = x;
    let mut t0: i128 = 0;
    let mut t1: i128 = 1;
    let ghost mut a0: int = 0;
    let ghost mut a1: int = 1;
    let ghost mut s: int = 1;
    let ghost mi: int = m as int;
    let ghost xi: int = x as int;
    let ghost full: bool = x < m && 2 < m && m <= i128::MAX && 2 * (bound * bound) <= m;
    proof {
        assert(m * 1 + x * 0 == m) by (nonlinear_arith);
        assert(xi * 0 == 0 && xi * 1 == xi) by (nonlinear_arith);
        nt::cong_from_quotient(mi, 0, mi, 1);
        nt::cong_refl(xi, mi);
        if full {
            assert(bound < m) by (nonlinear_arith)
                requires
                    2 * (bound * bound) <= m,
                    m > 2,
                    bound >= 0,
            ;
        }
    }
    while r1 > bound
        invariant
            m > 0,
            mi == m as int,
            xi == x as int,
            full == (x < m && 2 < m && m <= i128::MAX && 2 * (bound * bound) <= m),
            euclid_state(
                r0 as int,
                r1 as int,
                t0 as int,
                t1 as int,
                a0,
                a1,
                s,
                xi,
                mi,
            ),
            full ==> r1 < r0 && bound < r0 && a1 >= 1 && (a0 == 0 ==> a1 == 1),
        decreases r1,
    {
        let q: u128 = r0 / r1;
        let r2: u128 = r0 % r1;
        proof {
            lemma_fundamental_div_mod(r0 as int, r1 as int);
            assert(r1 * q == q * r1) by (nonlinear_arith);
            assert(r2 == r0 - q * r1);
            lemma_euclid_step(
                r0 as int,
                r1 as int,
                t0 as int,
                t1 as int,
                a0,
                a1,
                s,
                xi,
                mi,
                q as int,
            );
            if full {
                lemma_cofactor_fits(
                    r0 as int,
                    r1 as int,
                    t0 as int,
                    t1 as int,
                    a0,
                    a1,
                    s,
                    q as int,
                    mi,
                );
            }
        }
        if q > i128::MAX as u128 {
            return None;
        }
        let qi: i128 = q as i128;
        let qt: i128 = match qi.checked_mul(t1) {
            Some(v) => v,
            None => {
                return None;
            },
        };
        let t2: i128 = match t0.checked_sub(qt) {
            Some(v) => v,
            None => {
                return None;
            },
        };
        proof {
            let a2: int = a0 + q * a1;
            if full {
                assert(q >= 1) by {
                    if q == 0 {
                        assert(q * r1 == 0) by (nonlinear_arith)
                            requires
                                q == 0,
                        ;
                    }
                }
                assert(a2 >= 1 && a2 >= a1) by (nonlinear_arith)
                    requires
                        a2 == a0 + q * a1,
                        q >= 1,
                        a1 >= 1,
                        a0 >= 0,
                ;
            }
            a0 = a1;
            a1 = a2;
            s = -s;
        }
        r0 = r1;
        r1 = r2;
        t0 = t1;
        t1 = t2;
    }
    proof {
        if full {
            assert forall|n: int, d: int| #[trigger] is_fraction(
                n,
                d,
                xi,
                mi,
                bound as int,
            ) implies d == a1 && n == s * r1 by {
                lemma_convergent(
                    r0 as int,
                    r1 as int,
                    t0 as int,
                    t1 as int,
                    a0,
                    a1,
                    s,
                    xi,
                    mi,
                    bound as int,
                    n,
                    d,
                );
            }
            assert(t1 != 0) by (nonlinear_arith)
                requires
                    t1 == s * a1,
                    a1 >= 1,
                    s == 1 || s == -1,
            ;
            assert(r1 <= i128::MAX) by (nonlinear_arith)
                requires
                    r0 * a1 + r1 * a0 == mi,
                    r1 < r0,
                    a1 >= 1,
                    a0 >= 0,
                    mi <= i128::MAX,
            ;
        }
    }
    if t1 == 0 {
        return None;
    }
    let d: u128 = if t1 < 0 {
        (-(t1 + 1)) as u128 + 1
    } else {
        t1 as u128
    };
    proof {
        assert(d == a1) by (nonlinear_arith)
            requires
                t1 == s * a1,
                s == 1 || s == -1,
                a1 >= 0,
                d == if t1 < 0 {
                    -(t1 as int)
                } else {
                    t1 as int
                },
        ;
    }
    if d > bound {
        return None;
    }
    if r1 > i128::MAX as u128 {
        return None;
    }
    let n: i128 = if t1 < 0 {
        -(r1 as i128)
    } else {
        r1 as i128
    };
    proof {
        assert(n == s * r1) by (nonlinear_arith)
            requires
                t1 == s * a1,
                t1 != 0,
                a1 >= 0,
                s == 1 || s == -1,
                n == if t1 < 0 {
                    -(r1 as int)
                } else {
                    r1 as int
                },
        ;
    }
    let g: u128 = gcd_u128(r1, d);
    if g != 1 {
        proof {
            if full {
                assert forall|n2: int, d2: int|
                    !#[trigger] is_fraction(n2, d2, xi, mi, bound as int) by {
                    if is_fraction(n2, d2, xi, mi, bound as int) {
                        assert(n2 == n && d2 == d);
                        assert(nt::abs(n2) == r1);
                    }
                }
            }
        }
        return None;
    }
    proof {
        assert(nt::abs(n as int) == r1);
        // n is congruent to x * d: both are s times the convergent.
        nt::cong_scale(s, r1 as int, xi * t1, mi);
        assert(s * (xi * t1) == xi * d) by (nonlinear_arith)
            requires
                t1 == s * a1,
                d == a1,
                s == 1 || s == -1,
        ;
    }
    Some((n, d))
}

/// The next cofactor of the remainder sequence is at most `m` in size.
proof fn lemma_cofactor_fits(
    r0: int,
    r1: int,
    t0: int,
    t1: int,
    a0: int,
    a1: int,
    s: int,
    q: int,
    m: int,
)
    requires
        s == 1 || s == -1,
        a0 >= 0,
        a1 >= 1,
        q >= 0,
        r1 >= 1,
        r0 >= q * r1,
        t1 == s * a1,
        t0 == -s * a0,
        r0 * a1 + r1 * a0 == m,
    ensures
        q <= m,
        -m <= q * t1 <= m,
        -m <= t0 - q * t1 <= m,
{
    assert(r0 * a1 >= (q * r1) * a1) by (nonlinear_arith)
        requires
            r0 >= q * r1,
            a1 >= 1,
    ;
    assert((q * r1) * a1 >= q * a1) by (nonlinear_arith)
        requires
            r1 >= 1,
            q >= 0,
            a1 >= 1,
    ;
    assert(r1 * a0 >= a0) by (nonlinear_arith)
        requires
            r1 >= 1,
            a0 >= 0,
    ;
    assert(q * a1 >= q) by (nonlinear_arith)
        requires
            a1 >= 1,
            q >= 0,
    ;
    assert(q * t1 == s * (q * a1)) by (nonlinear_arith)
        requires
            t1 == s * a1,
    ;
    let qa: int = q * a1;
    assert(-qa <= s * qa <= qa && (s * qa == qa || s * qa == -qa)) by (nonlinear_arith)
        requires
            s == 1 || s == -1,
            qa >= 0,
    ;
    assert((s == 1 && t0 == -a0 && s * qa == qa) || (s == -1 && t0 == a0 && s * qa == -qa))
        by (nonlinear_arith)
        requires
            s == 1 || s == -1,
            t0 == -s * a0,
    ;
}

/// A residue represents at most one fraction in range.
pub proof fn law_fraction_unique(
    n1: int,
    d1: int,
    n2: int,
    d2: int,
    x: int,
    m: int,
    bound: int,
)
    requires
        m > 2,
        2 * (bound * bound) <= m,
        is_fraction(n1, d1, x, m, bound),
        is_fraction(n2, d2, x, m, bound),
    ensures
        n1 == n2,
        d1 == d2,
{
    let k: int = lemma_cross(n1, d1, n2, d2, x, m);
    let bb: int = bound * bound;
    assert(-bb <= n1 * d2 <= bb) by (nonlinear_arith)
        requires
            bb == bound * bound,
            -bound <= n1 <= bound,
            0 < d2 <= bound,
    ;
    assert(-bb <= n2 * d1 <= bb) by (nonlinear_arith)
        requires
            bb == bound * bound,
            -bound <= n2 <= bound,
            0 < d1 <= bound,
    ;
    if k != 0 {
        assert(k * m >= m || k * m <= -m) by (nonlinear_arith)
            requires
                k != 0,
                m > 0,
        ;
        // Both products reach the bound, so d1 == |n1| == bound, and that is 1.
        assert(n1 * d2 == bb || n1 * d2 == -bb);
        assert(n2 * d1 == bb || n2 * d1 == -bb);
        lemma_extreme(n1, d2, bound);
        lemma_extreme(n2, d1, bound);
        assert(nt::abs(n1) == bound && d1 == bound);
        let b: nat = bound as nat;
        nt::divides_from_quotient(bound, bound, 1);
        nt::common_divisor_divides_gcd(bound, b, b);
        nt::divides_le(bound, 1);
        assert(bb == 1) by (nonlinear_arith)
            requires
                bb == bound * bound,
                bound == 1,
        ;
    } else {
        assert(n1 * d2 == n2 * d1) by (nonlinear_arith)
            requires
                n1 * d2 - n2 * d1 == k * m,
                k == 0,
        ;
        lemma_reduced_equal(n1, d1, n2, d2);
    }
}

proof fn lemma_extreme(n: int, d: int, bound: int)
    requires
        -bound <= n <= bound,
        0 < d <= bound,
        n * d == bound * bound || n * d == -(bound * bound),
    ensures
        nt::abs(n) == bound,
        d == bound,
{
    let a: int = nt::abs(n);
    assert(a * d == bound * bound) by (nonlinear_arith)
        requires
            a == if n < 0 {
                -n
            } else {
                n
            },
            n * d == bound * bound || n * d == -(bound * bound),
            0 < d <= bound,
    ;
    assert(a == bound && d == bound) by (nonlinear_arith)
        requires
            a * d == bound * bound,
            0 <= a <= bound,
            0 < d <= bound,
    ;
}

/// Two reduced fractions of one value are the same fraction.
pub proof fn lemma_reduced_equal(n1: int, d1: int, n2: int, d2: int)
    requires
        d1 > 0,
        d2 > 0,
        nt::gcd(nt::abs(n1) as nat, d1 as nat) == 1,
        nt::gcd(nt::abs(n2) as nat, d2 as nat) == 1,
        n1 * d2 == n2 * d1,
    ensures
        n1 == n2,
        d1 == d2,
{
    lemma_den_divides(n1, d1, n2, d2);
    assert(n2 * d1 == n1 * d2);
    lemma_den_divides(n2, d2, n1, d1);
    nt::divides_le(d1, d2);
    nt::divides_le(d2, d1);
    assert(n1 == n2) by (nonlinear_arith)
        requires
            n1 * d2 == n2 * d1,
            d1 == d2,
            d1 > 0,
    ;
}

pub proof fn lemma_den_divides(n1: int, d1: int, n2: int, d2: int)
    requires
        d1 > 0,
        d2 > 0,
        nt::gcd(nt::abs(n1) as nat, d1 as nat) == 1,
        n1 * d2 == n2 * d1,
    ensures
        nt::divides(d1, d2),
{
    let a: nat = nt::abs(n1) as nat;
    let xy: (int, int) = nt::bezout(a, d1 as nat);
    let sg: int = if n1 < 0 {
        -1
    } else {
        1
    };
    let (x, y): (int, int) = xy;
    // d2 == d2 * (x * |n1| + y * d1) == (x * sg * n2 + y * d2) * d1
    assert(a == sg * n1) by (nonlinear_arith)
        requires
            (n1 < 0 && sg == -1 && a == -n1) || (n1 >= 0 && sg == 1 && a == n1),
    ;
    assert(d2 * (x * a) == (x * sg) * (n1 * d2)) by (nonlinear_arith)
        requires
            a == sg * n1,
    ;
    assert((x * sg) * (n2 * d1) == ((x * sg) * n2) * d1) by (nonlinear_arith);
    assert(d2 * (y * d1) == (y * d2) * d1) by (nonlinear_arith);
    assert(d2 * (x * a + y * d1) == d2 * (x * a) + d2 * (y * d1)) by (nonlinear_arith);
    assert(((x * sg) * n2) * d1 + (y * d2) * d1 == ((x * sg) * n2 + y * d2) * d1)
        by (nonlinear_arith);
    nt::divides_from_quotient(d1, d2, (x * sg) * n2 + y * d2);
}

} // verus!
