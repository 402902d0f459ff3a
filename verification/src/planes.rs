//! Pointer planes and limb planes: the structure-of-arrays shapes that the batch
//! descriptors share.

use crate::limbs;
use crate::limbs::bits_at;
use vstd::prelude::*;

verus! {

/// The words of slot `s`: word `l` stands at `l * n + s`.
pub open spec fn slot_limbs(mag: Seq<u64>, k: int, n: int, s: int) -> Seq<u64> {
    Seq::new(k as nat, |l: int| mag[l * n + s])
}

/// The magnitude of slot `s`.
pub open spec fn slot_value(mag: Seq<u64>, k: int, n: int, s: int) -> nat {
    limbs::value(slot_limbs(mag, k, n, s))
}

/// Every word of slot `s` lies inside the planes.
pub open spec fn slot_inside(len: int, k: int, n: int, s: int) -> bool {
    k > 0 ==> (k - 1) * n + s < len
}

/// A pointer plane that rises from zero to `end`.
pub open spec fn rises(ptr: Seq<u32>, end: int) -> bool {
    &&& ptr.len() > 0
    &&& ptr[0] == 0
    &&& forall|i: int, j: int| 0 <= i <= j < ptr.len() ==> ptr[i] <= ptr[j]
    &&& ptr[ptr.len() - 1] == end
}

/// A sign that agrees with its magnitude: one of -1, 0, 1, and 0 exactly for zero.
pub open spec fn sign_fits(sign: i8, mag: nat) -> bool {
    -1 <= sign <= 1 && (sign == 0 <==> mag == 0)
}

/// The largest value of `f` on the places from `lo` up to `hi`, zero where there are none.
pub open spec fn largest(f: spec_fn(int) -> nat, lo: int, hi: int) -> nat
    decreases hi - lo,
{
    if hi <= lo {
        0
    } else {
        let rest = largest(f, lo, hi - 1);
        if f(hi - 1) > rest {
            f(hi - 1)
        } else {
            rest
        }
    }
}

/// The largest value is not below any other.
pub proof fn lemma_largest(f: spec_fn(int) -> nat, lo: int, hi: int, i: int)
    requires
        lo <= i < hi,
    ensures
        f(i) <= largest(f, lo, hi),
    decreases hi - lo,
{
    if i < hi - 1 {
        lemma_largest(f, lo, hi - 1, i);
    }
}

/// A bound on every value bounds the largest.
pub proof fn lemma_largest_bound(f: spec_fn(int) -> nat, lo: int, hi: int, most: nat)
    requires
        forall|i: int| lo <= i < hi ==> #[trigger] f(i) <= most,
    ensures
        largest(f, lo, hi) <= most,
    decreases hi - lo,
{
    if lo < hi {
        lemma_largest_bound(f, lo, hi - 1, most);
        assert(f(hi - 1) <= most);
    }
}

/// Places of words stay inside the planes.
pub proof fn lemma_word_inside(len: int, k: int, n: int, s: int, l: int)
    requires
        slot_inside(len, k, n, s),
        0 <= l < k,
        0 <= n,
        0 <= s,
    ensures
        0 <= l * n <= l * n + s < len,
{
    assert(0 <= l * n <= (k - 1) * n) by (nonlinear_arith)
        requires
            0 <= l <= k - 1,
            0 <= n,
    ;
}

/// Slots of full planes lie inside them.
pub proof fn lemma_slot_inside(len: int, k: int, n: int, s: int)
    requires
        len == k * n,
        0 <= s < n,
        0 <= k,
    ensures
        slot_inside(len, k, n, s),
{
    if k > 0 {
        assert((k - 1) * n + n == k * n) by (nonlinear_arith);
    }
}

/// Whether a pointer plane rises from zero to `end`.
pub fn monotone_from_zero(ptr: &Vec<u32>, end: usize) -> (r: bool)
    ensures
        r == rises(ptr@, end as int),
{
    if ptr.len() == 0 || ptr[0] != 0 {
        return false;
    }
    let mut i: usize = 1;
    while i < ptr.len()
        invariant
            1 <= i <= ptr@.len(),
            ptr@[0] == 0,
            forall|a: int, b: int| 0 <= a <= b < i ==> ptr@[a] <= ptr@[b],
        decreases ptr@.len() - i,
    {
        if ptr[i - 1] > ptr[i] {
            return false;
        }
        i = i + 1;
    }
    ptr[ptr.len() - 1] as usize == end
}

/// The bit length of slot `s`, zero for zero. A length that a word cannot hold is
/// reported as the largest word.
pub fn slot_bits(mag: &Vec<u64>, k: usize, n: usize, s: usize) -> (r: u64)
    requires
        slot_inside(mag@.len() as int, k as int, n as int, s as int),
    ensures
        r == limbs::capped(limbs::bit_len(slot_value(mag@, k as int, n as int, s as int))),
{
    let ghost words: Seq<u64> = slot_limbs(mag@, k as int, n as int, s as int);
    let mut l: usize = k;
    while l > 0
        invariant
            l <= k,
            words == slot_limbs(mag@, k as int, n as int, s as int),
            slot_inside(mag.len() as int, k as int, n as int, s as int),
            forall|j: int| l <= j < k ==> words[j] == 0,
        decreases l,
    {
        l = l - 1;
        proof {
            lemma_word_inside(mag.len() as int, k as int, n as int, s as int, l as int);
        }
        let limb: u64 = mag[l * n + s];
        assert(limb == words[l as int]);
        if limb != 0 {
            proof {
                limbs::lemma_top_word(words, l as int, 0);
            }
            return bits_at(limb, l);
        }
    }
    proof {
        limbs::lemma_zero_tail(words, 0);
    }
    0
}

/// Whether a sign agrees with its magnitude.
pub fn sign_agrees(sign: i8, zero: bool) -> (r: bool)
    ensures
        forall|mag: nat| zero == (mag == 0) ==> r == #[trigger] sign_fits(sign, mag),
{
    -1 <= sign && sign <= 1 && zero == (sign == 0)
}

} // verus!
