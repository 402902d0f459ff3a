//! Residue arithmetic on words.

use crate::nt;
use vstd::prelude::*;

verus! {

/// The product of two words fits in a double word.
pub proof fn lemma_wide_product(a: u64, b: u64)
    ensures
        0 <= a * b <= 0xffff_ffff_ffff_fffe_0000_0000_0000_0001,
{
    assert(0 <= a * b <= 0xffff_ffff_ffff_fffe_0000_0000_0000_0001) by (nonlinear_arith)
        requires
            0 <= a <= 0xffff_ffff_ffff_ffff,
            0 <= b <= 0xffff_ffff_ffff_ffff,
    ;
}

/// `a + b` modulo `p`, for residues.
pub fn addmod(a: u64, b: u64, p: u64) -> (r: u64)
    requires
        a < p,
        b < p,
    ensures
        r < p,
        r == (a + b) % p as int,
{
    let s: u128 = a as u128 + b as u128;
    proof {
        nt::cong_mod(a + b, p as int);
        if a + b < p {
            nt::cong_small((a + b) % p as int, a + b, p as int);
        } else {
            nt::cong_from_quotient(a + b, a + b - p, p as int, 1);
            nt::cong_trans((a + b) % p as int, a + b, a + b - p, p as int);
            nt::cong_small((a + b) % p as int, a + b - p, p as int);
        }
    }
    if s >= p as u128 {
        (s - p as u128) as u64
    } else {
        s as u64
    }
}

/// `a - b` modulo `p`, for residues.
pub fn submod(a: u64, b: u64, p: u64) -> (r: u64)
    requires
        a < p,
        b < p,
    ensures
        r < p,
        r == (a - b) % p as int,
{
    proof {
        nt::cong_mod(a - b, p as int);
        if a >= b {
            nt::cong_small((a - b) % p as int, a - b, p as int);
        } else {
            nt::cong_from_quotient(a - b, a - b + p, p as int, -1);
            nt::cong_trans((a - b) % p as int, a - b, a - b + p, p as int);
            nt::cong_small((a - b) % p as int, a - b + p, p as int);
        }
    }
    if a >= b {
        a - b
    } else {
        p - (b - a)
    }
}

/// `a * b` modulo `p`.
pub fn mulmod(a: u64, b: u64, p: u64) -> (r: u64)
    requires
        p > 0,
    ensures
        r < p,
        r == (a * b) % p as int,
{
    proof {
        lemma_wide_product(a, b);
    }
    let t: u128 = (a as u128 * b as u128) % (p as u128);
    t as u64
}

/// The residue of a signed word.
pub fn residue(w: i64, p: u64) -> (r: u64)
    requires
        p > 0,
    ensures
        r < p,
        r == w as int % p as int,
{
    if w >= 0 {
        (w as u64) % p
    } else {
        let mag: u64 = (-(w as i128)) as u64;
        let s: u64 = mag % p;
        proof {
            nt::cong_mod(mag as int, p as int);
            nt::cong_mod(w as int, p as int);
            nt::cong_minus(0, 0, mag as int, s as int, p as int);
            // w == -mag is congruent to -s, and to p - s
            nt::cong_trans(w as int % p as int, w as int, -(s as int), p as int);
            nt::cong_from_quotient(-(s as int), p - s, p as int, -1);
            nt::cong_trans(w as int % p as int, -(s as int), p - s, p as int);
            if s == 0 {
                nt::cong_from_quotient(p - s, 0, p as int, 1);
                nt::cong_trans(w as int % p as int, p - s, 0, p as int);
                nt::cong_small(w as int % p as int, 0, p as int);
            } else {
                nt::cong_small(w as int % p as int, p - s, p as int);
            }
        }
        if s == 0 {
            0
        } else {
            p - s
        }
    }
}

/// The inverse of `a` modulo a prime `p`, by the extended Euclidean algorithm.
/// Modulo a composite `p` the result is some residue.
pub fn invmod(a: u64, p: u64) -> (r: u64)
    requires
        p > 1,
    ensures
        r < p,
        nt::is_prime(p as int) && !nt::cong(a as int, 0, p as int) ==> nt::cong(
            r * a,
            1,
            p as int,
        ),
{
    let mut r0: u64 = p;
    let mut r1: u64 = a % p;
    let mut t0: u64 = 0;
    let mut t1: u64 = 1;
    let ghost q: int = p as int;
    proof {
        nt::cong_mod(a as int, q);
        nt::cong_from_quotient(q, 0, q, 1);
        nt::divides_from_quotient(1, q, q);
        assert(0 * (a as int) == 0 && 1 * (a as int) == a as int) by (nonlinear_arith);
        nt::cong_sym(q, 0, q);
        nt::cong_sym(r1 as int, a as int, q);
    }
    while r1 != 0
        invariant
            p > 1,
            q == p as int,
            r0 > 0,
            r1 < r0 <= p,
            t0 < p,
            t1 < p,
            nt::cong(t0 * a, r0 as int, q),
            nt::cong(t1 * a, r1 as int, q),
            forall|d: int|
                d > 0 && nt::divides(d, r0 as int) && #[trigger] nt::divides(d, r1 as int)
                    ==> nt::divides(d, q) && nt::divides(d, a as int % q),
        decreases r1,
    {
        let k: u64 = r0 / r1;
        let r2: u64 = r0 % r1;
        let kt: u64 = mulmod(k, t1, p);
        let t2: u64 = submod(t0, kt, p);
        proof {
            vstd::arithmetic::div_mod::lemma_fundamental_div_mod(r0 as int, r1 as int);
            assert(r0 == r1 * k + r2);
            assert(r0 as int == k * r1 + r2) by (nonlinear_arith)
                requires
                    r0 == r1 * k + r2,
            ;
            // t2 is congruent to t0 - k * t1
            nt::cong_mod(k * t1, q);
            nt::cong_mod(t0 - kt, q);
            nt::cong_refl(t0 as int, q);
            nt::cong_minus(t0 as int, t0 as int, kt as int, k * t1, q);
            nt::cong_trans(t2 as int, t0 - kt, t0 - k * t1, q);
            nt::cong_refl(a as int, q);
            nt::cong_times(t2 as int, t0 - k * t1, a as int, a as int, q);
            assert((t0 - k * t1) * a == t0 * a - k * (t1 * a)) by (nonlinear_arith);
            nt::cong_scale(k as int, t1 * a, r1 as int, q);
            nt::cong_minus(t0 * a, r0 as int, k * (t1 * a), k * r1, q);
            nt::cong_trans(t2 * a, t0 * a - k * (t1 * a), r0 - k * r1, q);
            assert forall|d: int|
                d > 0 && nt::divides(d, r1 as int) && #[trigger] nt::divides(
                    d,
                    r2 as int,
                ) implies nt::divides(d, q) && nt::divides(d, a as int % q) by {
                nt::divides_combination(d, r1 as int, r2 as int, k as int, 1);
            }
        }
        r0 = r1;
        r1 = r2;
        t0 = t1;
        t1 = t2;
    }
    proof {
        if nt::is_prime(q) && !nt::cong(a as int, 0, q) {
            nt::divides_from_quotient(r0 as int, r0 as int, 1);
            nt::divides_from_quotient(r0 as int, 0, 0);
            assert(nt::divides(r0 as int, r1 as int));
            let s: int = a as int % q;
            nt::cong_mod(a as int, q);
            if s == 0 {
                assert(nt::cong(a as int, 0, q));
            }
            nt::divides_le(r0 as int, s);
            if r0 > 1 {
                assert(!nt::divides(r0 as int, q));
            }
        }
    }
    t0
}

} // verus!
