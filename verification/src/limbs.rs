//! Magnitudes written as words, least significant first.

use vstd::arithmetic::power2::{lemma2_to64, lemma_pow2_adds, lemma_pow2_strictly_increases, lemma_pow2_unfold, pow2};
use vstd::prelude::*;
use vstd::std_specs::bits::u64_leading_zeros;

verus! {

/// The base of the representation.
pub open spec fn base() -> int {
    0x1_0000_0000_0000_0000
}

/// The magnitude of the words from `i` on.
pub open spec fn value_from(limbs: Seq<u64>, i: int) -> nat
    decreases limbs.len() - i,
{
    if i >= limbs.len() {
        0
    } else {
        (limbs[i] + base() * value_from(limbs, i + 1)) as nat
    }
}

/// The magnitude that the words spell.
pub open spec fn value(limbs: Seq<u64>) -> nat {
    value_from(limbs, 0)
}

/// A magnitude under a sign.
pub open spec fn signed(sign: i8, mag: nat) -> int {
    if sign < 0 {
        -(mag as int)
    } else {
        mag as int
    }
}

/// The number of bits of a magnitude, zero for zero.
pub open spec fn bit_len(v: nat) -> nat
    decreases v,
{
    if v == 0 {
        0
    } else {
        1 + bit_len(v / 2)
    }
}

/// A count, held at the largest word where it exceeds it.
pub open spec fn capped(n: nat) -> nat {
    if n <= u64::MAX {
        n
    } else {
        u64::MAX as nat
    }
}

/// A magnitude is below the power of two that its bit length names, and not below
/// half of it.
pub proof fn lemma_bit_len_bounds(v: nat)
    ensures
        v < pow2(bit_len(v)),
        v > 0 ==> bit_len(v) > 0 && pow2((bit_len(v) - 1) as nat) <= v,
    decreases v,
{
    lemma2_to64();
    if v > 0 {
        let h: nat = v / 2;
        lemma_bit_len_bounds(h);
        lemma_pow2_unfold(bit_len(v));
        if h > 0 {
            lemma_pow2_unfold(bit_len(h));
        }
    }
}

/// The bit length is the only number with those bounds.
pub proof fn lemma_bit_len_unique(v: nat, b: nat)
    requires
        v < pow2(b),
        v > 0,
        b > 0,
        pow2((b - 1) as nat) <= v,
    ensures
        bit_len(v) == b,
{
    lemma_bit_len_bounds(v);
    let c: nat = bit_len(v);
    if c < b {
        if c < b - 1 {
            lemma_pow2_strictly_increases(c, (b - 1) as nat);
        }
    } else if c > b {
        if b < c - 1 {
            lemma_pow2_strictly_increases(b, (c - 1) as nat);
        }
    }
}

/// The bit length of a word, by its leading zeros.
pub proof fn lemma_leading_zeros(w: u64)
    ensures
        bit_len(w as nat) == 64 - u64_leading_zeros(w),
    decreases w,
{
    reveal(u64_leading_zeros);
    if w != 0 {
        lemma_leading_zeros(w / 2);
    }
}

/// A word has at most 64 bits.
pub proof fn lemma_word_bits(w: u64)
    ensures
        bit_len(w as nat) <= 64,
        w != 0 ==> bit_len(w as nat) > 0,
{
    lemma2_to64();
    if w != 0 {
        lemma_bit_len_bounds(w as nat);
        let b: nat = bit_len(w as nat);
        if b > 64 {
            if b > 65 {
                lemma_pow2_strictly_increases(64, (b - 1) as nat);
            }
        }
    }
}

/// A word below a nonzero magnitude adds 64 bits.
proof fn lemma_bit_len_shift(lo: u64, hi: nat)
    requires
        hi > 0,
    ensures
        bit_len((lo + base() * hi) as nat) == 64 + bit_len(hi),
{
    let b: nat = bit_len(hi);
    let v: nat = (lo + base() * hi) as nat;
    lemma2_to64();
    lemma_bit_len_bounds(hi);
    lemma_pow2_adds(64, b);
    lemma_pow2_adds(64, (b - 1) as nat);
    let p: int = pow2(b) as int;
    let q: int = pow2((b - 1) as nat) as int;
    assert(base() * hi + base() <= base() * p) by (nonlinear_arith)
        requires
            hi + 1 <= p,
            base() > 0,
    ;
    assert(base() * q <= base() * hi) by (nonlinear_arith)
        requires
            q <= hi,
            base() > 0,
    ;
    assert(base() * hi > 0) by (nonlinear_arith)
        requires
            hi > 0,
            base() > 0,
    ;
    assert((64 + b - 1) as nat == 64 + (b - 1) as nat);
    lemma_bit_len_unique(v, 64 + b);
}

/// Zero words on top change no magnitude.
pub proof fn lemma_padded(short: Seq<u64>, long: Seq<u64>, i: int)
    requires
        short.len() <= long.len(),
        0 <= i <= short.len(),
        forall|l: int| 0 <= l < short.len() ==> #[trigger] long[l] == short[l],
        forall|l: int| short.len() <= l < long.len() ==> #[trigger] long[l] == 0,
    ensures
        value_from(long, i) == value_from(short, i),
    decreases short.len() - i,
{
    if i < short.len() {
        lemma_padded(short, long, i + 1);
    } else {
        lemma_zero_tail(long, i);
    }
}

/// Words that are all zero spell zero.
pub proof fn lemma_zero_tail(limbs: Seq<u64>, i: int)
    requires
        0 <= i,
        forall|j: int| i <= j < limbs.len() ==> limbs[j] == 0,
    ensures
        value_from(limbs, i) == 0,
    decreases limbs.len() - i,
{
    if i < limbs.len() {
        lemma_zero_tail(limbs, i + 1);
    }
}

/// The bit length of a magnitude whose highest nonzero word is the one at `top`.
pub proof fn lemma_top_word(limbs: Seq<u64>, top: int, i: int)
    requires
        0 <= i <= top < limbs.len(),
        limbs[top] != 0,
        forall|j: int| top < j < limbs.len() ==> limbs[j] == 0,
    ensures
        value_from(limbs, i) > 0,
        bit_len(value_from(limbs, i)) == 64 * (top - i) + bit_len(limbs[top] as nat),
    decreases top - i,
{
    if i == top {
        lemma_zero_tail(limbs, top + 1);
    } else {
        lemma_top_word(limbs, top, i + 1);
        lemma_bit_len_shift(limbs[i], value_from(limbs, i + 1));
        assert(base() * value_from(limbs, i + 1) > 0) by (nonlinear_arith)
            requires
                value_from(limbs, i + 1) > 0,
                base() > 0,
        ;
    }
}

/// The bit length that a nonzero word at place `i` gives, held at the largest word.
pub fn bits_at(limb: u64, i: usize) -> (r: u64)
    requires
        limb != 0,
    ensures
        r == capped(64 * (i as nat) + bit_len(limb as nat)),
{
    proof {
        lemma_leading_zeros(limb);
        lemma_word_bits(limb);
    }
    let low: u32 = 64 - limb.leading_zeros();
    let bits: u128 = i as u128 * 64 + low as u128;
    if bits > u64::MAX as u128 {
        u64::MAX
    } else {
        bits as u64
    }
}

} // verus!
