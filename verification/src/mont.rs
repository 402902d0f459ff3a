//! Montgomery arithmetic on words, with `R = 2^64` and an odd modulus below `2^63`.

use crate::nt;
use vstd::prelude::*;

verus! {

/// The Montgomery radix `2^64`.
pub open spec fn radix() -> int {
    0x1_0000_0000_0000_0000
}

/// One Newton round doubles the number of correct low bits of an inverse of `p`.
proof fn lemma_newton(p: u64, inv: u64, m: int, m2: int)
    requires
        m > 0,
        m2 > 0,
        nt::cong(p * inv, 1, m),
        nt::divides(m2, m * m),
        nt::divides(m2, radix()),
    ensures
        nt::cong(p * inv.wrapping_mul(2u64.wrapping_sub(p.wrapping_mul(inv))), 1, m2),
{
    let x: int = p * inv;
    let k: int = nt::cong_quotient(x, 1, m);
    let px: u64 = p.wrapping_mul(inv);
    let s: u64 = 2u64.wrapping_sub(px);
    let y: u64 = inv.wrapping_mul(s);
    let r: int = radix();
    assert(0 <= x) by (nonlinear_arith)
        requires
            x == p * inv,
    ;
    assert(px == x % r);
    nt::cong_mod(x, r);
    // s is congruent to 2 - x
    if 2 - px < 0 {
        nt::cong_from_quotient(s as int, 2 - px, r, 1);
    } else {
        nt::cong_refl(s as int, r);
    }
    nt::cong_refl(2, r);
    nt::cong_minus(2, 2, px as int, x, r);
    nt::cong_trans(s as int, 2 - px, 2 - x, r);
    // y is congruent to inv * (2 - x)
    assert(0 <= inv * s) by (nonlinear_arith);
    assert(y == (inv * s) % r);
    nt::cong_mod(inv * s, r);
    nt::cong_scale(inv as int, s as int, 2 - x, r);
    nt::cong_trans(y as int, inv * s, inv * (2 - x), r);
    // and so is p * y to x * (2 - x)
    nt::cong_scale(p as int, y as int, inv * (2 - x), r);
    assert(p * (inv * (2 - x)) == x * (2 - x)) by (nonlinear_arith)
        requires
            x == p * inv,
    ;
    let d: int = nt::divides_quotient(m2, r);
    assert(d > 0) by (nonlinear_arith)
        requires
            r == d * m2,
            r > 0,
            m2 > 0,
    ;
    assert(d * m2 == m2 * d) by (nonlinear_arith);
    nt::cong_coarsen(p * y, x * (2 - x), m2, d);
    // x * (2 - x) == 1 - (x - 1)^2
    let e: int = nt::divides_quotient(m2, m * m);
    let km: int = k * m;
    assert(x * (2 - x) == 1 - km * km) by (nonlinear_arith)
        requires
            x == 1 + km,
    ;
    assert(km * km == (k * k) * (m * m)) by (nonlinear_arith)
        requires
            km == k * m,
    ;
    assert((k * k) * (e * m2) == (k * k * e) * m2) by (nonlinear_arith);
    assert((-(k * k * e)) * m2 == -((k * k * e) * m2)) by (nonlinear_arith);
    nt::cong_from_quotient(x * (2 - x), 1, m2, -(k * k * e));
    nt::cong_trans(p * y, x * (2 - x), 1, m2);
}

/// An odd number is its own inverse modulo 8.
proof fn lemma_odd_square(p: u64)
    requires
        p % 2 == 1,
    ensures
        nt::cong(p * p, 1, 8),
{
    assert(p as nat as int % 2 == 1);
    let q: int = p as int / 4;
    let r: int = p as int % 4;
    assert(p as int == 4 * q + r);
    assert(r == 1 || r == 3);
    assert(p * p == 16 * (q * q) + 8 * (q * r) + r * r) by (nonlinear_arith)
        requires
            p == 4 * q + r,
    ;
    let s: int = if r == 1 {
        0
    } else {
        1
    };
    assert(r * r == 1 + 8 * s) by (nonlinear_arith)
        requires
            (r == 1 && s == 0) || (r == 3 && s == 1),
    ;
    let k: int = 2 * (q * q) + q * r + s;
    nt::cong_from_quotient(p * p, 1, 8, k);
}

fn newton_round(p: u64, inv: u64) -> (r: u64)
    ensures
        r == inv.wrapping_mul(2u64.wrapping_sub(p.wrapping_mul(inv))),
{
    inv.wrapping_mul(2u64.wrapping_sub(p.wrapping_mul(inv)))
}

/// `-p^{-1}` modulo `2^64`, for odd `p`, by Newton iteration from a seed that is
/// exact modulo 8.
pub fn neg_inv_u64(p: u64) -> (r: u64)
    requires
        p % 2 == 1,
    ensures
        nt::cong(p * r, -1, radix()),
{
    let i0: u64 = p;
    proof {
        lemma_odd_square(p);
        nt::divides_from_quotient(64, 8int * 8, 1);
        nt::divides_from_quotient(64, radix(), 0x400_0000_0000_0000);
        lemma_newton(p, i0, 8, 64);
    }
    let i1: u64 = newton_round(p, i0);
    proof {
        nt::divides_from_quotient(0x1000, 64int * 64, 1);
        nt::divides_from_quotient(0x1000, radix(), 0x10_0000_0000_0000);
        lemma_newton(p, i1, 64, 0x1000);
    }
    let i2: u64 = newton_round(p, i1);
    proof {
        nt::divides_from_quotient(0x100_0000, 0x1000int * 0x1000, 1);
        nt::divides_from_quotient(0x100_0000, radix(), 0x100_0000_0000);
        lemma_newton(p, i2, 0x1000, 0x100_0000);
    }
    let i3: u64 = newton_round(p, i2);
    proof {
        nt::divides_from_quotient(0x1_0000_0000_0000, 0x100_0000int * 0x100_0000, 1);
        nt::divides_from_quotient(0x1_0000_0000_0000, radix(), 0x1_0000);
        lemma_newton(p, i3, 0x100_0000, 0x1_0000_0000_0000);
    }
    let i4: u64 = newton_round(p, i3);
    proof {
        nt::divides_from_quotient(
            radix(),
            0x1_0000_0000_0000int * 0x1_0000_0000_0000,
            0x1_0000_0000,
        );
        nt::divides_from_quotient(radix(), radix(), 1);
        lemma_newton(p, i4, 0x1_0000_0000_0000, radix());
    }
    let i5: u64 = newton_round(p, i4);
    let r: u64 = 0u64.wrapping_sub(i5);
    proof {
        // r is congruent to -i5
        if i5 > 0 {
            nt::cong_from_quotient(r as int, -(i5 as int), radix(), 1);
        } else {
            nt::cong_refl(0, radix());
        }
        nt::cong_scale(p as int, r as int, -(i5 as int), radix());
        assert(p * (-(i5 as int)) == -(p * i5)) by (nonlinear_arith);
        nt::cong_refl(0, radix());
        nt::cong_minus(0, 0, p * i5, 1, radix());
        nt::cong_trans(p * r, -(p * i5), -1, radix());
    }
    r
}

/// `a * 2^64` modulo `p`: the Montgomery form of the residue `a`.
pub fn to_mont(a: u64, p: u64) -> (r: u64)
    requires
        p > 0,
    ensures
        r < p,
        r == (a * radix()) % p as int,
{
    let wide: u128 = (a as u128) * 0x1_0000_0000_0000_0000u128;
    (wide % (p as u128)) as u64
}

/// A modulus with what Montgomery reduction needs of it.
pub struct Mont {
    /// The modulus.
    pub p: u64,
    /// `-p^{-1} mod 2^64`.
    pub ninv: u64,
    /// `2^128 mod p`.
    pub r2: u64,
}

impl Mont {
    /// The derived fields belong to the modulus.
    pub open spec fn wf(&self) -> bool {
        &&& 3 <= self.p < 0x8000_0000_0000_0000
        &&& nt::cong(self.p * self.ninv, -1, radix())
        &&& self.r2 < self.p
        &&& nt::cong(self.r2 as int, radix() * radix(), self.p as int)
    }

    pub fn new(p: u64) -> (m: Mont)
        requires
            3 <= p < 0x8000_0000_0000_0000,
            p % 2 == 1,
        ensures
            m.wf(),
            m.p == p,
    {
        let r: u64 = to_mont(1, p);
        let r2: u64 = to_mont(r, p);
        proof {
            let q: int = p as int;
            assert(1 * radix() == radix());
            nt::cong_mod(radix(), q);
            nt::cong_mod(r * radix(), q);
            nt::cong_scale(radix(), r as int, radix(), q);
            assert(radix() * r == r * radix());
            nt::cong_trans(r2 as int, r * radix(), radix() * radix(), q);
        }
        Mont { p, ninv: neg_inv_u64(p), r2 }
    }

    /// The radix has an inverse modulo `p`.
    pub proof fn lemma_radix_unit(&self) -> (v: int)
        requires
            self.wf(),
        ensures
            nt::cong(v * radix(), 1, self.p as int),
    {
        let k: int = nt::cong_quotient(self.p * self.ninv, -1, radix());
        let q: int = self.p as int;
        assert(k * radix() == 1 + (self.ninv as int) * q) by (nonlinear_arith)
            requires
                q * (self.ninv as int) == -1 + k * radix(),
        ;
        nt::cong_from_quotient(k * radix(), 1, q, self.ninv as int);
        k
    }

    /// The Montgomery product `a * b * R^{-1} mod p`.
    pub fn mulredc(&self, a: u64, b: u64) -> (r: u64)
        requires
            self.wf(),
            a < self.p,
            b < self.p,
        ensures
            r < self.p,
            nt::cong(r * radix(), a * b, self.p as int),
    {
        let p: u64 = self.p;
        proof {
            crate::nullspace::arith::lemma_wide_product(a, b);
        }
        let t: u128 = a as u128 * b as u128;
        let low: u64 = (t % 0x1_0000_0000_0000_0000u128) as u64;
        let m: u64 = low.wrapping_mul(self.ninv);
        proof {
            assert(t < 0x4000_0000_0000_0000_0000_0000_0000_0000) by (nonlinear_arith)
                requires
                    t == a * b,
                    a < 0x8000_0000_0000_0000,
                    b < 0x8000_0000_0000_0000,
            ;
            assert(0 <= m * p < 0x8000_0000_0000_0000_0000_0000_0000_0000) by (nonlinear_arith)
                requires
                    m <= 0xffff_ffff_ffff_ffff,
                    p < 0x8000_0000_0000_0000,
            ;
        }
        let s: u128 = t + m as u128 * p as u128;
        let h: u64 = (s / 0x1_0000_0000_0000_0000u128) as u64;
        proof {
            let r: int = radix();
            let q: int = p as int;
            // m * p is congruent to -t modulo the radix
            assert(low == t as int % r);
            nt::cong_mod(t as int, r);
            assert(0 <= low * self.ninv) by (nonlinear_arith);
            assert(m == (low * self.ninv) % r);
            nt::cong_mod(low * self.ninv, r);
            nt::cong_refl(self.ninv as int, r);
            nt::cong_times(low as int, t as int, self.ninv as int, self.ninv as int, r);
            nt::cong_trans(m as int, low * self.ninv, t * self.ninv, r);
            nt::cong_scale(q, m as int, t * self.ninv, r);
            assert(q * (t * self.ninv) == t * (q * self.ninv)) by (nonlinear_arith);
            nt::cong_scale(t as int, q * self.ninv, -1, r);
            assert(t * -1 == -(t as int)) by (nonlinear_arith);
            nt::cong_trans(q * m, t * (q * self.ninv), -(t as int), r);
            assert(q * m == m * p) by (nonlinear_arith)
                requires
                    q == p,
            ;
            nt::cong_refl(t as int, r);
            nt::cong_plus(t as int, t as int, m * p, -(t as int), r);
            assert(s as int % r == 0);
            assert(s as int == h * r);
            // so h * R is t + m * p, congruent to t modulo p
            nt::cong_from_quotient(h * r, t as int, q, m as int);
            assert(h < 2 * p) by (nonlinear_arith)
                requires
                    h * r == t + m * p,
                    t == a * b,
                    a < p,
                    b < p,
                    p < 0x8000_0000_0000_0000,
                    m < r,
                    r == 0x1_0000_0000_0000_0000,
            {
                assert(a * b <= p * p);
                assert(p * p <= p * r);
                assert(m * p <= p * r);
            }
            if h >= p {
                assert((h - p) * r == t + (m - r) * q) by (nonlinear_arith)
                    requires
                        h * r == t + m * p,
                        q == p,
                ;
                nt::cong_from_quotient((h - p) * r, t as int, q, m - r);
            }
        }
        if h >= p {
            h - p
        } else {
            h
        }
    }

    /// The Montgomery form of a residue.
    pub fn to_mont(&self, a: u64) -> (r: u64)
        requires
            self.wf(),
            a < self.p,
        ensures
            r < self.p,
            nt::cong(r as int, a * radix(), self.p as int),
    {
        let r: u64 = self.mulredc(a, self.r2);
        proof {
            let q: int = self.p as int;
            let v: int = self.lemma_radix_unit();
            nt::cong_scale(a as int, self.r2 as int, radix() * radix(), q);
            nt::cong_trans(r * radix(), a * self.r2, a * (radix() * radix()), q);
            assert(a * (radix() * radix()) == radix() * (a * radix()));
            nt::cong_cancel(radix(), v, r as int, a * radix(), q);
        }
        r
    }

    /// With one factor in Montgomery form, the Montgomery product is the plain one.
    pub proof fn lemma_plain_product(&self, f: int, f_mont: u64, x: u64, r: u64)
        requires
            self.wf(),
            nt::cong(f_mont as int, f * radix(), self.p as int),
            nt::cong(r * radix(), f_mont * x, self.p as int),
        ensures
            nt::cong(r as int, f * x, self.p as int),
    {
        let q: int = self.p as int;
        let v: int = self.lemma_radix_unit();
        nt::cong_refl(x as int, q);
        nt::cong_times(f_mont as int, f * radix(), x as int, x as int, q);
        nt::cong_trans(r * radix(), f_mont * x, f * radix() * x, q);
        assert(f * radix() * x == radix() * (f * x)) by (nonlinear_arith);
        assert(r * radix() == radix() * r);
        nt::cong_cancel(radix(), v, r as int, f * x, q);
    }
}

} // verus!
