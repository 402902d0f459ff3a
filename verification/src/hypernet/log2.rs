//! The binary logarithm of a denominator, rounded up.

use super::int_bytes;
use super::scalar::{WitInt, WitRat};
use crate::limbs;
use crate::nt;
use vstd::arithmetic::power2::{lemma2_to64, lemma_pow2_adds, lemma_pow2_strictly_increases, lemma_pow2_unfold, pow2};
use vstd::prelude::*;

verus! {

/// A positive power of two or one.
pub open spec fn is_power_of_two(d: int) -> bool {
    d > 0 && d == pow2((limbs::bit_len(d as nat) - 1) as nat)
}

/// One less than the bit length of the absolute value, and one more where the number is not
/// a power of two.
pub open spec fn rounded_log2(d: int) -> nat {
    let bits = limbs::bit_len(nt::abs(d) as nat);
    ((if bits > 0 {
        bits - 1
    } else {
        0
    }) + if is_power_of_two(d) {
        0int
    } else {
        1int
    }) as nat
}

/// Of a positive number the logarithm is rounded up: two to it reaches the number, and two
/// to one less does not.
pub proof fn law_log2_rounds_up(d: int)
    requires
        d > 0,
    ensures
        d <= pow2(rounded_log2(d)),
        rounded_log2(d) > 0 ==> pow2((rounded_log2(d) - 1) as nat) < d,
{
    let bits: nat = limbs::bit_len(d as nat);
    limbs::lemma_bit_len_bounds(d as nat);
    if is_power_of_two(d) {
        if bits > 1 {
            lemma_pow2_strictly_increases((bits - 2) as nat, (bits - 1) as nat);
        }
    }
}

/// A byte below a positive magnitude adds eight bits.
proof fn lemma_eight_more_bits(lo: u8, hi: nat)
    requires
        hi > 0,
    ensures
        limbs::bit_len((lo + 256 * hi) as nat) == 8 + limbs::bit_len(hi),
{
    let b: nat = limbs::bit_len(hi);
    lemma2_to64();
    limbs::lemma_bit_len_bounds(hi);
    lemma_pow2_adds(8, b);
    lemma_pow2_adds(8, (b - 1) as nat);
    assert(8 + (b - 1) as nat == (8 + b - 1) as nat);
    limbs::lemma_bit_len_unique((lo + 256 * hi) as nat, 8 + b);
}

/// Of a negative number it is the number of bits of the absolute value; of zero it is one.
pub proof fn law_log2_of_others(d: int)
    requires
        d <= 0,
    ensures
        d == 0 ==> rounded_log2(d) == 1,
        d < 0 ==> rounded_log2(d) > 0 && pow2((rounded_log2(d) - 1) as nat) <= -d && -d < pow2(
            rounded_log2(d),
        ),
{
    if d < 0 {
        limbs::lemma_bit_len_bounds((-d) as nat);
    }
}

/// Only the top byte is not zero.
spec fn low_zero(s: Seq<u8>) -> bool {
    forall|i: int| 0 <= i < s.len() - 1 ==> s[i] == 0
}

/// The bit length of a magnitude with a nonzero top byte, and when it is a power of two.
proof fn lemma_magnitude_bits(s: Seq<u8>)
    requires
        s.len() > 0,
        s.last() != 0,
    ensures
        int_bytes::magnitude(s) > 0,
        limbs::bit_len(int_bytes::magnitude(s)) == 8 * (s.len() - 1) + limbs::bit_len(
            s.last() as nat,
        ),
        is_power_of_two(int_bytes::magnitude(s) as int) <==> low_zero(s) && is_power_of_two(
            s.last() as int,
        ),
    decreases s.len(),
{
    reveal_with_fuel(int_bytes::magnitude, 2);
    if s.len() == 1 {
        assert(s.drop_first().len() == 0);
    } else {
        let rest: Seq<u8> = s.drop_first();
        assert(rest.last() == s.last());
        lemma_magnitude_bits(rest);
        let m: nat = int_bytes::magnitude(rest);
        lemma_eight_more_bits(s[0], m);
        let b: nat = limbs::bit_len(m);
        lemma2_to64();
        lemma_pow2_adds(8, (b - 1) as nat);
        assert(8 + (b - 1) as nat == (8 + b - 1) as nat);
        if low_zero(s) {
            assert forall|i: int| 0 <= i < rest.len() - 1 implies rest[i] == 0 by {
                assert(s[i + 1] == 0);
            }
        }
        if low_zero(rest) && s[0] == 0 {
            assert forall|i: int| 0 <= i < s.len() - 1 implies s[i] == 0 by {
                if i > 0 {
                    assert(rest[i - 1] == 0);
                }
            }
        }
    }
}

/// The bit length of a nonzero byte, and whether it is a power of two.
fn byte_bits(b: u8) -> (r: (u32, bool))
    requires
        b != 0,
    ensures
        r.0 == limbs::bit_len(b as nat),
        r.0 <= 8,
        r.1 == is_power_of_two(b as int),
{
    let mut k: u32 = 0;
    let mut p: u32 = 1;
    proof {
        lemma2_to64();
    }
    while p * 2 <= b as u32
        invariant
            k <= 7,
            p == pow2(k as nat),
            p <= b < 256,
        decreases 256 - p,
    {
        proof {
            lemma2_to64();
            lemma_pow2_unfold((k + 1) as nat);
            if k == 7 {
                assert(p == 128);
            }
        }
        p = p * 2;
        k = k + 1;
    }
    proof {
        lemma_pow2_unfold((k + 1) as nat);
        limbs::lemma_bit_len_unique(b as nat, (k + 1) as nat);
    }
    (k + 1, b as u32 == p)
}

/// Whether the bytes below the top one are all zero.
fn low_bytes_zero(s: &Vec<u8>) -> (r: bool)
    requires
        s@.len() > 0,
    ensures
        r == low_zero(s@),
{
    let mut i: usize = 0;
    while i < s.len() - 1
        invariant
            s@.len() > 0,
            i <= s@.len() - 1,
            forall|j: int| 0 <= j < i ==> s@[j] == 0,
        decreases s@.len() - i,
    {
        if s[i] != 0 {
            return false;
        }
        i = i + 1;
    }
    true
}

impl WitRat {
    /// The binary logarithm of the denominator, rounded up. One that a word cannot hold is
    /// reported as the largest word.
    pub fn den_log2(&self) -> (r: u64)
        ensures
            r == limbs::capped(rounded_log2(self@.den)),
    {
        let negative: bool = self.1.is_negative();
        let m: WitInt = if negative {
            self.1.negate()
        } else {
            self.1.clone()
        };
        if m.is_zero() {
            return 1;
        }
        let bytes: Vec<u8> = m.to_magnitude_le();
        let n: usize = bytes.len();
        proof {
            int_bytes::lemma_magnitude_bytes(m@ as nat);
            lemma_magnitude_bits(bytes@);
        }
        let (top, top_power): (u32, bool) = byte_bits(bytes[n - 1]);
        let power: bool = !negative && top_power && low_bytes_zero(&bytes);
        let mut log: u128 = 8 * (n - 1) as u128 + top as u128 - 1;
        if !power {
            log = log + 1;
        }
        if log > u64::MAX as u128 {
            u64::MAX
        } else {
            log as u64
        }
    }
}

} // verus!
