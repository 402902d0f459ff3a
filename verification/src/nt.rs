//! Elementary number theory over the mathematical integers: congruence,
//! divisibility, greatest common divisors, Bezout coefficients and primes.

use vstd::arithmetic::div_mod::{lemma_fundamental_div_mod, lemma_mod_multiples_basic};
use vstd::prelude::*;

verus! {

/// `a` and `b` leave the same residue modulo `m`.
pub open spec fn cong(a: int, b: int, m: int) -> bool {
    (a - b) % m == 0
}

/// `d` divides `n`.
pub open spec fn divides(d: int, n: int) -> bool {
    n % d == 0
}

/// `p` is a prime number.
pub open spec fn is_prime(p: int) -> bool {
    p > 1 && forall|d: int| 1 < d < p ==> !#[trigger] divides(d, p)
}

/// The greatest common divisor of two natural numbers.
pub open spec fn gcd(a: nat, b: nat) -> nat
    decreases b,
{
    if b == 0 {
        a
    } else {
        gcd(b, a % b)
    }
}

/// The absolute value.
pub open spec fn abs(a: int) -> int {
    if a < 0 {
        -a
    } else {
        a
    }
}

/// The quotient that witnesses a congruence.
pub proof fn cong_quotient(a: int, b: int, m: int) -> (k: int)
    requires
        m > 0,
        cong(a, b, m),
    ensures
        a == b + k * m,
{
    let k: int = (a - b) / m;
    lemma_fundamental_div_mod(a - b, m);
    assert(m * k == k * m) by (nonlinear_arith);
    k
}

/// A difference that is a multiple of `m` is a congruence.
pub proof fn cong_from_quotient(a: int, b: int, m: int, k: int)
    requires
        m > 0,
        a == b + k * m,
    ensures
        cong(a, b, m),
{
    lemma_mod_multiples_basic(k, m);
}

pub proof fn cong_refl(a: int, m: int)
    requires
        m > 0,
    ensures
        cong(a, a, m),
{
    cong_from_quotient(a, a, m, 0);
}

pub proof fn cong_sym(a: int, b: int, m: int)
    requires
        m > 0,
        cong(a, b, m),
    ensures
        cong(b, a, m),
{
    let k: int = cong_quotient(a, b, m);
    assert(b == a + (-k) * m) by (nonlinear_arith)
        requires
            a == b + k * m,
    ;
    cong_from_quotient(b, a, m, -k);
}

pub proof fn cong_trans(a: int, b: int, c: int, m: int)
    requires
        m > 0,
        cong(a, b, m),
        cong(b, c, m),
    ensures
        cong(a, c, m),
{
    let k: int = cong_quotient(a, b, m);
    let l: int = cong_quotient(b, c, m);
    assert(a == c + (k + l) * m) by (nonlinear_arith)
        requires
            a == b + k * m,
            b == c + l * m,
    ;
    cong_from_quotient(a, c, m, k + l);
}

pub proof fn cong_plus(a: int, b: int, c: int, d: int, m: int)
    requires
        m > 0,
        cong(a, b, m),
        cong(c, d, m),
    ensures
        cong(a + c, b + d, m),
{
    let k: int = cong_quotient(a, b, m);
    let l: int = cong_quotient(c, d, m);
    assert(a + c == (b + d) + (k + l) * m) by (nonlinear_arith)
        requires
            a == b + k * m,
            c == d + l * m,
    ;
    cong_from_quotient(a + c, b + d, m, k + l);
}

pub proof fn cong_minus(a: int, b: int, c: int, d: int, m: int)
    requires
        m > 0,
        cong(a, b, m),
        cong(c, d, m),
    ensures
        cong(a - c, b - d, m),
{
    let k: int = cong_quotient(a, b, m);
    let l: int = cong_quotient(c, d, m);
    assert(a - c == (b - d) + (k - l) * m) by (nonlinear_arith)
        requires
            a == b + k * m,
            c == d + l * m,
    ;
    cong_from_quotient(a - c, b - d, m, k - l);
}

pub proof fn cong_times(a: int, b: int, c: int, d: int, m: int)
    requires
        m > 0,
        cong(a, b, m),
        cong(c, d, m),
    ensures
        cong(a * c, b * d, m),
{
    let k: int = cong_quotient(a, b, m);
    let l: int = cong_quotient(c, d, m);
    assert(a * c == a * d + (a * l) * m) by (nonlinear_arith)
        requires
            c == d + l * m,
    ;
    assert(a * d == b * d + (k * d) * m) by (nonlinear_arith)
        requires
            a == b + k * m,
    ;
    assert((a * l) * m + (k * d) * m == (a * l + k * d) * m) by (nonlinear_arith);
    cong_from_quotient(a * c, b * d, m, a * l + k * d);
}

/// Multiplying both sides of a congruence by one factor keeps it.
pub proof fn cong_scale(f: int, a: int, b: int, m: int)
    requires
        m > 0,
        cong(a, b, m),
    ensures
        cong(f * a, f * b, m),
{
    cong_refl(f, m);
    cong_times(f, f, a, b, m);
}

/// A residue is congruent to what it is the residue of.
pub proof fn cong_mod(a: int, m: int)
    requires
        m > 0,
    ensures
        cong(a % m, a, m),
        cong(a, a % m, m),
        0 <= a % m < m,
{
    lemma_fundamental_div_mod(a, m);
    let q: int = a / m;
    assert(a == a % m + q * m) by (nonlinear_arith)
        requires
            a == m * q + a % m,
    ;
    cong_from_quotient(a, a % m, m, q);
    cong_sym(a, a % m, m);
}

/// Congruent numbers have one residue, and numbers of one residue are congruent.
pub proof fn cong_iff_mod(a: int, b: int, m: int)
    requires
        m > 0,
    ensures
        cong(a, b, m) <==> a % m == b % m,
{
    cong_mod(a, m);
    cong_mod(b, m);
    if cong(a, b, m) {
        cong_trans(a % m, a, b, m);
        cong_trans(a % m, b, b % m, m);
        cong_small(a % m, b % m, m);
    }
    if a % m == b % m {
        cong_trans(a, a % m, b, m);
    }
}

/// Two congruent residues are equal.
pub proof fn cong_small(a: int, b: int, m: int)
    requires
        m > 0,
        cong(a, b, m),
        0 <= a < m,
        0 <= b < m,
    ensures
        a == b,
{
    let k: int = cong_quotient(a, b, m);
    assert(k == 0) by (nonlinear_arith)
        requires
            a == b + k * m,
            0 <= a < m,
            0 <= b < m,
    ;
    assert(k * m == 0) by (nonlinear_arith)
        requires
            k == 0,
    ;
}

/// A multiple of `m` of absolute value below `m` is zero.
pub proof fn small_multiple_is_zero(a: int, m: int)
    requires
        m > 0,
        cong(a, 0, m),
        -m < a < m,
    ensures
        a == 0,
{
    let k: int = cong_quotient(a, 0, m);
    assert(k == 0) by (nonlinear_arith)
        requires
            a == k * m,
            -m < a < m,
            m > 0,
    ;
    assert(k * m == 0) by (nonlinear_arith)
        requires
            k == 0,
    ;
}

/// Congruence modulo a multiple of `m` is congruence modulo `m`.
pub proof fn cong_coarsen(a: int, b: int, m: int, f: int)
    requires
        m > 0,
        f > 0,
        cong(a, b, m * f),
    ensures
        cong(a, b, m),
{
    assert(m * f > 0) by (nonlinear_arith)
        requires
            m > 0,
            f > 0,
    ;
    let k: int = cong_quotient(a, b, m * f);
    assert(a == b + (k * f) * m) by (nonlinear_arith)
        requires
            a == b + k * (m * f),
    ;
    cong_from_quotient(a, b, m, k * f);
}

/// The quotient that witnesses a divisibility.
pub proof fn divides_quotient(d: int, n: int) -> (k: int)
    requires
        d > 0,
        divides(d, n),
    ensures
        n == k * d,
{
    cong_quotient(n, 0, d)
}

pub proof fn divides_from_quotient(d: int, n: int, k: int)
    requires
        d > 0,
        n == k * d,
    ensures
        divides(d, n),
{
    cong_from_quotient(n, 0, d, k);
}

/// A divisor of a positive number does not exceed it.
pub proof fn divides_le(d: int, n: int)
    requires
        d > 0,
        n > 0,
        divides(d, n),
    ensures
        d <= n,
{
    let k: int = divides_quotient(d, n);
    assert(d <= n) by (nonlinear_arith)
        requires
            n == k * d,
            n > 0,
            d > 0,
    ;
}

/// Divisibility is transitive.
pub proof fn divides_trans(a: int, b: int, c: int)
    requires
        a > 0,
        b > 0,
        divides(a, b),
        divides(b, c),
    ensures
        divides(a, c),
{
    let k: int = divides_quotient(a, b);
    let l: int = divides_quotient(b, c);
    assert(c == (l * k) * a) by (nonlinear_arith)
        requires
            b == k * a,
            c == l * b,
    ;
    divides_from_quotient(a, c, l * k);
}

/// A divisor of two numbers divides each of their combinations.
pub proof fn divides_combination(d: int, a: int, b: int, x: int, y: int)
    requires
        d > 0,
        divides(d, a),
        divides(d, b),
    ensures
        divides(d, x * a + y * b),
{
    let k: int = divides_quotient(d, a);
    let l: int = divides_quotient(d, b);
    assert(x * a + y * b == (x * k + y * l) * d) by (nonlinear_arith)
        requires
            a == k * d,
            b == l * d,
    ;
    divides_from_quotient(d, x * a + y * b, x * k + y * l);
}

/// Coefficients that combine `a` and `b` to their greatest common divisor, which
/// divides both.
pub proof fn bezout(a: nat, b: nat) -> (xy: (int, int))
    requires
        a > 0 || b > 0,
    ensures
        xy.0 * a + xy.1 * b == gcd(a, b),
        gcd(a, b) > 0,
        divides(gcd(a, b) as int, a as int),
        divides(gcd(a, b) as int, b as int),
    decreases b,
{
    if b == 0 {
        divides_from_quotient(a as int, a as int, 1);
        divides_from_quotient(a as int, 0, 0);
        (1, 0)
    } else {
        let g: int = gcd(a, b) as int;
        let xy: (int, int) = bezout(b, a % b);
        lemma_fundamental_div_mod(a as int, b as int);
        let q: int = a as int / b as int;
        let r: int = (a % b) as int;
        assert(a == q * b + r) by (nonlinear_arith)
            requires
                a == b * q + r,
        ;
        divides_combination(g, b as int, r, q, 1);
        let (x, y): (int, int) = xy;
        assert(y * a == (y * q) * b + y * r) by (nonlinear_arith)
            requires
                a == q * b + r,
        ;
        assert((x - q * y) * b == x * b - (y * q) * b) by (nonlinear_arith);
        (xy.1, xy.0 - q * xy.1)
    }
}

/// Any common divisor divides the greatest one.
pub proof fn common_divisor_divides_gcd(d: int, a: nat, b: nat)
    requires
        d > 0,
        a > 0 || b > 0,
        divides(d, a as int),
        divides(d, b as int),
    ensures
        divides(d, gcd(a, b) as int),
{
    let xy: (int, int) = bezout(a, b);
    divides_combination(d, a as int, b as int, xy.0, xy.1);
}

/// A number that is not a multiple of a prime has an inverse modulo it.
pub proof fn prime_inverse_exists(a: int, p: int) -> (x: int)
    requires
        is_prime(p),
        !cong(a, 0, p),
    ensures
        cong(x * a, 1, p),
{
    let r: nat = (a % p) as nat;
    cong_mod(a, p);
    if r == 0 {
        assert(cong(a, 0, p));
    }
    let g: int = gcd(p as nat, r) as int;
    let xy: (int, int) = bezout(p as nat, r);
    divides_le(g, r as int);
    if g > 1 {
        assert(!divides(g, p));
    }
    assert(xy.0 * p + xy.1 * r == 1);
    assert(xy.1 * r == 1 + (-xy.0) * p) by (nonlinear_arith)
        requires
            xy.0 * p + xy.1 * r == 1,
    ;
    cong_from_quotient(xy.1 * r, 1, p, -xy.0);
    cong_scale(xy.1, a, r as int, p);
    cong_trans(xy.1 * a, xy.1 * r, 1, p);
    xy.1
}

/// Modulo a prime, a product vanishes only where a factor does.
pub proof fn prime_product_zero(a: int, b: int, p: int)
    requires
        is_prime(p),
        cong(a * b, 0, p),
    ensures
        cong(a, 0, p) || cong(b, 0, p),
{
    if !cong(a, 0, p) {
        let x: int = prime_inverse_exists(a, p);
        cong_scale(x, a * b, 0, p);
        cong_scale(b, x * a, 1, p);
        assert(b * (x * a) == x * (a * b)) by (nonlinear_arith);
        assert(x * 0 == 0 && b * 1 == b) by (nonlinear_arith);
        cong_sym(b * (x * a), b, p);
        cong_trans(b, x * (a * b), 0, p);
    }
}

/// A factor with an inverse can be cancelled from a vanishing product.
pub proof fn cancel_unit(u: int, v: int, a: int, m: int)
    requires
        m > 0,
        cong(v * u, 1, m),
        cong(u * a, 0, m),
    ensures
        cong(a, 0, m),
{
    cong_scale(v, u * a, 0, m);
    cong_scale(a, v * u, 1, m);
    assert(a * (v * u) == v * (u * a)) by (nonlinear_arith);
    assert(v * 0 == 0 && a * 1 == a) by (nonlinear_arith);
    cong_sym(a * (v * u), a, m);
    cong_trans(a, v * (u * a), 0, m);
}

/// A factor with an inverse can be cancelled from a congruence.
pub proof fn cong_cancel(u: int, v: int, a: int, b: int, m: int)
    requires
        m > 0,
        cong(v * u, 1, m),
        cong(u * a, u * b, m),
    ensures
        cong(a, b, m),
{
    assert(u * (a - b) == u * a - u * b) by (nonlinear_arith);
    cancel_unit(u, v, a - b, m);
}

/// Coprime moduli: a number that both divide is a multiple of their product. The
/// coprimality is given by an inverse of `m` modulo `q`.
pub proof fn coprime_product_divides(x: int, m: int, q: int, inv: int)
    requires
        m > 0,
        q > 0,
        cong(inv * m, 1, q),
        cong(x, 0, m),
        cong(x, 0, q),
    ensures
        cong(x, 0, m * q),
{
    let k: int = cong_quotient(x, 0, m);
    assert(m * k == x) by (nonlinear_arith)
        requires
            x == k * m,
    ;
    cancel_unit(m, inv, k, q);
    let l: int = cong_quotient(k, 0, q);
    assert(x == l * (m * q)) by (nonlinear_arith)
        requires
            x == m * k,
            k == l * q,
    ;
    assert(m * q > 0) by (nonlinear_arith)
        requires
            m > 0,
            q > 0,
    ;
    cong_from_quotient(x, 0, m * q, l);
}

} // verus!
