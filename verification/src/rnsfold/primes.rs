//! The channel table and the residue helpers that every lane shares.

use super::channels;
use crate::limbs;
use crate::limbs::bits_at;
use crate::nt;
use crate::nullspace::arith;
use vstd::arithmetic::power2::pow2;
use vstd::prelude::*;

verus! {

/// The 64 largest primes below `2^63`, descending. Channel `j` works modulo
/// `PRIMES[j]`. All are odd, and their product exceeds `2^3968`.
pub const PRIMES: [u64; 64] = [
    9223372036854775783,
    9223372036854775643,
    9223372036854775549,
    9223372036854775507,
    9223372036854775433,
    9223372036854775421,
    9223372036854775417,
    9223372036854775399,
    9223372036854775351,
    9223372036854775337,
    9223372036854775291,
    9223372036854775279,
    9223372036854775259,
    9223372036854775181,
    9223372036854775159,
    9223372036854775139,
    9223372036854775097,
    9223372036854775073,
    9223372036854775057,
    9223372036854774959,
    9223372036854774937,
    9223372036854774917,
    9223372036854774893,
    9223372036854774797,
    9223372036854774739,
    9223372036854774713,
    9223372036854774679,
    9223372036854774629,
    9223372036854774587,
    9223372036854774571,
    9223372036854774559,
    9223372036854774511,
    9223372036854774509,
    9223372036854774499,
    9223372036854774451,
    9223372036854774413,
    9223372036854774341,
    9223372036854774319,
    9223372036854774307,
    9223372036854774277,
    9223372036854774257,
    9223372036854774247,
    9223372036854774233,
    9223372036854774199,
    9223372036854774179,
    9223372036854774173,
    9223372036854774053,
    9223372036854773999,
    9223372036854773977,
    9223372036854773953,
    9223372036854773899,
    9223372036854773867,
    9223372036854773783,
    9223372036854773639,
    9223372036854773561,
    9223372036854773557,
    9223372036854773519,
    9223372036854773507,
    9223372036854773489,
    9223372036854773477,
    9223372036854773443,
    9223372036854773429,
    9223372036854773407,
    9223372036854773353,
];

/// The modulus of channel `j`.
pub open spec fn prime(j: int) -> int {
    PRIMES@[j] as int
}

/// The number of channels whose product of moduli exceeds `2^bits`, or `None` where
/// the whole table is not known to. Every modulus exceeds `2^62`, so `c` channels are
/// counted on for strictly more than `62 c` bits.
pub fn channels_for_bits(bits: u64) -> (r: Option<usize>)
    ensures
        r == (if bits < 3968 {
            Some((bits / 62 + 1) as usize)
        } else if bits == 3968 {
            Some(64)
        } else {
            None
        }),
        r matches Some(c) ==> 1 <= c <= 64 && pow2(bits as nat) < channels::product(c as int),
{
    if bits > 3968 {
        return None;
    }
    proof {
        channels::lemma_product_exceeds(bits as nat);
    }
    if bits == 3968 {
        Some(64)
    } else {
        Some((bits / 62 + 1) as usize)
    }
}

/// `a * b` modulo `p`.
pub fn mulmod(a: u64, b: u64, p: u64) -> (r: u64)
    requires
        p > 0,
    ensures
        r < p,
        r == (a * b) % p as int,
{
    arith::mulmod(a, b, p)
}

/// `a + b` modulo `p`, for residues.
pub fn addmod(a: u64, b: u64, p: u64) -> (r: u64)
    requires
        a < p,
        b < p,
    ensures
        r < p,
        r == (a + b) % p as int,
{
    arith::addmod(a, b, p)
}

/// One step of Horner's rule: `hi` stands for the words above, `lo` for the next one.
proof fn lemma_horner(hi: int, h: int, base: int, c: int, t: int, lo: int, l: int, r: int, p: int)
    requires
        p > 0,
        nt::cong(h, hi, p),
        nt::cong(c, base, p),
        nt::cong(t, h * c, p),
        nt::cong(l, lo, p),
        nt::cong(r, t + l, p),
    ensures
        nt::cong(r, lo + base * hi, p),
{
    nt::cong_times(h, hi, c, base, p);
    nt::cong_trans(t, h * c, hi * base, p);
    nt::cong_plus(t, hi * base, l, lo, p);
    nt::cong_trans(r, t + l, hi * base + lo, p);
    assert(hi * base == base * hi) by (nonlinear_arith);
}

/// The residue of a magnitude, by Horner's rule over `2^64` modulo `p`.
pub fn residue_of_limbs(limbs: &[u64], p: u64) -> (r: u64)
    requires
        p > 0,
    ensures
        r < p,
        r == limbs::value(limbs@) as int % p as int,
{
    let base: u64 = (0x1_0000_0000_0000_0000u128 % (p as u128)) as u64;
    let mut r: u64 = 0;
    let mut i: usize = limbs.len();
    let ghost q: int = p as int;
    proof {
        nt::cong_mod(limbs::base(), q);
        nt::cong_refl(0, q);
    }
    while i > 0
        invariant
            i <= limbs@.len(),
            p > 0,
            q == p as int,
            r < p,
            base < p,
            nt::cong(base as int, limbs::base(), q),
            nt::cong(r as int, limbs::value_from(limbs@, i as int) as int, q),
        decreases i,
    {
        i = i - 1;
        let hi: u64 = r;
        let t: u64 = mulmod(hi, base, p);
        let l: u64 = limbs[i] % p;
        r = addmod(t, l, p);
        proof {
            nt::cong_mod(hi * base, q);
            nt::cong_mod(limbs@[i as int] as int, q);
            nt::cong_mod(t + l, q);
            lemma_horner(
                limbs::value_from(limbs@, i + 1) as int,
                hi as int,
                limbs::base(),
                base as int,
                t as int,
                limbs@[i as int] as int,
                l as int,
                r as int,
                q,
            );
            assert(limbs::base() * limbs::value_from(limbs@, i + 1) >= 0) by (nonlinear_arith)
                requires
                    limbs::base() >= 0,
                    limbs::value_from(limbs@, i + 1) >= 0,
            ;
        }
    }
    proof {
        let v: int = limbs::value(limbs@) as int;
        nt::cong_iff_mod(r as int, v, q);
        nt::cong_mod(r as int, q);
        nt::cong_small(r as int % q, r as int, q);
    }
    r
}

/// The residue of a magnitude under a sign.
pub fn residue_signed(sign: i8, limbs: &[u64], p: u64) -> (r: u64)
    requires
        p > 0,
    ensures
        r < p,
        r == limbs::signed(sign, limbs::value(limbs@)) % p as int,
{
    let r: u64 = residue_of_limbs(limbs, p);
    proof {
        let q: int = p as int;
        let v: int = limbs::value(limbs@) as int;
        let neg: int = if r == 0 {
            0
        } else {
            q - r
        };
        nt::cong_mod(v, q);
        nt::cong_mod(-v, q);
        nt::cong_minus(0, 0, r as int, v, q);
        nt::cong_from_quotient(neg, -(r as int), q, if r == 0 {
            0
        } else {
            1
        });
        nt::cong_trans(neg, -(r as int), -v, q);
        nt::cong_sym((-v) % q, -v, q);
        nt::cong_trans(neg, -v, (-v) % q, q);
        nt::cong_small(neg, (-v) % q, q);
    }
    if sign < 0 && r != 0 {
        p - r
    } else {
        r
    }
}

/// The bit length of a magnitude, zero for zero. A length that a word cannot hold is
/// reported as the largest word.
pub fn bits_of_limbs(limbs: &[u64]) -> (r: u64)
    ensures
        r == limbs::capped(limbs::bit_len(limbs::value(limbs@))),
{
    let mut i: usize = limbs.len();
    while i > 0
        invariant
            i <= limbs@.len(),
            forall|j: int| i <= j < limbs@.len() ==> limbs@[j] == 0,
        decreases i,
    {
        i = i - 1;
        if limbs[i] != 0 {
            proof {
                limbs::lemma_top_word(limbs@, i as int, 0);
            }
            return bits_at(limbs[i], i);
        }
    }
    proof {
        limbs::lemma_zero_tail(limbs@, 0);
    }
    0
}

} // verus!
