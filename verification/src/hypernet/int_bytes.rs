//! Integers as little-endian bytes: two's complement for signed values, plain magnitudes
//! for positive ones.

use vstd::prelude::*;

verus! {

/// The value of one byte as a signed number.
pub open spec fn signed_byte(b: u8) -> int {
    if b < 128 {
        b as int
    } else {
        b - 256
    }
}

/// The value of bytes in two's complement, least significant byte first.
pub open spec fn twos(s: Seq<u8>) -> int
    decreases s.len(),
{
    if s.len() == 0 {
        0
    } else if s.len() == 1 {
        signed_byte(s[0])
    } else {
        s[0] + 256 * twos(s.drop_first())
    }
}

/// The value of bytes as a magnitude, least significant byte first.
pub open spec fn magnitude(s: Seq<u8>) -> nat
    decreases s.len(),
{
    if s.len() == 0 {
        0
    } else {
        (s[0] + 256 * magnitude(s.drop_first())) as nat
    }
}

/// The last byte repeats the sign of the one before it.
pub open spec fn redundant(s: Seq<u8>) -> bool {
    &&& s.len() > 1
    &&& (s.last() == 0 && s[s.len() - 2] < 128) || (s.last() == 255 && s[s.len() - 2] >= 128)
}

/// The shortest two's complement form of its value.
pub open spec fn minimal(s: Seq<u8>) -> bool {
    s.len() > 0 && !redundant(s)
}

/// The shortest two's complement form of an integer.
pub open spec fn signed_bytes(x: int) -> Seq<u8>
    decreases (if x < 0 {
        -x
    } else {
        x
    }),
{
    if -128 <= x < 128 {
        seq![(x % 256) as u8]
    } else {
        seq![(x % 256) as u8] + signed_bytes(x / 256)
    }
}

/// The shortest form of a magnitude.
pub open spec fn magnitude_bytes(x: nat) -> Seq<u8>
    decreases x,
{
    if x < 256 {
        seq![x as u8]
    } else {
        seq![(x % 256) as u8] + magnitude_bytes(x / 256)
    }
}

/// The shortest form has the value it was made from.
pub proof fn lemma_signed_bytes(x: int)
    ensures
        twos(signed_bytes(x)) == x,
        minimal(signed_bytes(x)),
        signed_bytes(x).len() == 1 <==> -128 <= x < 128,
    decreases (if x < 0 {
        -x
    } else {
        x
    }),
{
    let s: Seq<u8> = signed_bytes(x);
    if -128 <= x < 128 {
    } else {
        let rest: Seq<u8> = signed_bytes(x / 256);
        lemma_signed_bytes(x / 256);
        assert(s.drop_first() =~= rest);
        assert(s.last() == rest.last());
        if rest.len() == 1 {
            assert(s[s.len() - 2] == s[0]);
        } else {
            assert(s[s.len() - 2] == rest[rest.len() - 2]);
        }
    }
}

/// Longer minimal forms lie outside the range of one byte.
proof fn lemma_minimal_range(s: Seq<u8>)
    requires
        minimal(s),
    ensures
        s.len() == 1 <==> -128 <= twos(s) < 128,
    decreases s.len(),
{
    reveal_with_fuel(twos, 3);
    if s.len() > 1 {
        let rest: Seq<u8> = s.drop_first();
        if rest.len() == 1 {
            assert(rest[0] == s.last());
        } else {
            assert(rest[rest.len() - 2] == s[s.len() - 2]);
            lemma_minimal_range(rest);
        }
    }
}

/// A value has only one shortest form.
pub proof fn lemma_minimal_unique(s: Seq<u8>)
    requires
        minimal(s),
    ensures
        signed_bytes(twos(s)) == s,
    decreases s.len(),
{
    lemma_minimal_range(s);
    if s.len() == 1 {
        assert(signed_bytes(twos(s)) =~= s);
    } else {
        let rest: Seq<u8> = s.drop_first();
        if rest.len() > 1 {
            assert(rest[rest.len() - 2] == s[s.len() - 2]);
        }
        assert(minimal(rest));
        lemma_minimal_unique(rest);
        assert(signed_bytes(twos(s)) =~= s);
    }
}

/// Dropping a redundant byte keeps the value.
pub proof fn lemma_drop_redundant(s: Seq<u8>)
    requires
        redundant(s),
    ensures
        twos(s.drop_last()) == twos(s),
    decreases s.len(),
{
    reveal_with_fuel(twos, 3);
    let t: Seq<u8> = s.drop_last();
    let rest: Seq<u8> = s.drop_first();
    if s.len() == 2 {
        assert(rest[0] == s.last());
        assert(t[0] == s[0]);
    } else {
        assert(rest.last() == s.last() && rest[rest.len() - 2] == s[s.len() - 2]);
        lemma_drop_redundant(rest);
        assert(t.drop_first() =~= rest.drop_last());
        assert(t[0] == s[0]);
    }
}

/// The sign is that of the last byte.
pub proof fn lemma_twos_sign(s: Seq<u8>)
    requires
        s.len() > 0,
    ensures
        twos(s) < 0 <==> s.last() >= 128,
    decreases s.len(),
{
    if s.len() > 1 {
        lemma_twos_sign(s.drop_first());
        assert(s.drop_first().last() == s.last());
    }
}

/// Without a sign bit the value is the magnitude.
pub proof fn lemma_twos_magnitude(s: Seq<u8>)
    requires
        s.len() > 0,
        s.last() < 128,
    ensures
        twos(s) == magnitude(s),
    decreases s.len(),
{
    reveal_with_fuel(magnitude, 3);
    if s.len() > 1 {
        assert(s.drop_first().last() == s.last());
        lemma_twos_magnitude(s.drop_first());
    } else {
        assert(s.drop_first().len() == 0);
    }
}

/// A zero byte on top does not change a magnitude.
pub proof fn lemma_magnitude_push_zero(s: Seq<u8>)
    ensures
        magnitude(s.push(0)) == magnitude(s),
    decreases s.len(),
{
    reveal_with_fuel(magnitude, 3);
    let t: Seq<u8> = s.push(0);
    if s.len() == 0 {
        assert(t.drop_first().len() == 0);
    } else {
        assert(t.drop_first() =~= s.drop_first().push(0));
        lemma_magnitude_push_zero(s.drop_first());
    }
}

/// The shortest form of a magnitude has the value it was made from.
pub proof fn lemma_magnitude_bytes(x: nat)
    ensures
        magnitude(magnitude_bytes(x)) == x,
        magnitude_bytes(x).len() > 0,
        x > 0 ==> magnitude_bytes(x).last() != 0,
    decreases x,
{
    reveal_with_fuel(magnitude, 3);
    let s: Seq<u8> = magnitude_bytes(x);
    if x < 256 {
        assert(s.drop_first().len() == 0);
    } else {
        lemma_magnitude_bytes(x / 256);
        assert(s.drop_first() =~= magnitude_bytes(x / 256));
        assert(s.last() == magnitude_bytes(x / 256).last());
    }
}

/// A magnitude with a nonzero top byte is positive, and its only shortest form is these
/// bytes.
pub proof fn lemma_magnitude_unique(s: Seq<u8>)
    requires
        s.len() > 0,
        s.last() != 0,
    ensures
        magnitude(s) > 0,
        magnitude_bytes(magnitude(s)) == s,
    decreases s.len(),
{
    reveal_with_fuel(magnitude, 3);
    let rest: Seq<u8> = s.drop_first();
    if s.len() == 1 {
        assert(rest.len() == 0);
        assert(magnitude_bytes(magnitude(s)) =~= s);
    } else {
        assert(rest.last() == s.last());
        lemma_magnitude_unique(rest);
        assert(magnitude_bytes(magnitude(s)) =~= s);
    }
}

/// Zero bytes have the magnitude zero, and only they.
pub proof fn lemma_magnitude_zero(s: Seq<u8>)
    ensures
        magnitude(s) == 0 <==> (forall|i: int| 0 <= i < s.len() ==> s[i] == 0),
    decreases s.len(),
{
    if s.len() > 0 {
        let rest: Seq<u8> = s.drop_first();
        lemma_magnitude_zero(rest);
        if magnitude(s) == 0 {
            assert forall|i: int| 0 <= i < s.len() implies s[i] == 0 by {
                if i > 0 {
                    assert(rest[i - 1] == 0);
                }
            }
        } else if forall|i: int| 0 <= i < s.len() ==> s[i] == 0 {
            assert forall|i: int| 0 <= i < rest.len() implies rest[i] == 0 by {
                assert(s[i + 1] == 0);
            }
        }
    }
}

/// Every byte replaced by its complement.
pub open spec fn complement(s: Seq<u8>) -> Seq<u8> {
    Seq::new(s.len(), |i: int| (255 - s[i]) as u8)
}

/// Complementing the bytes maps `x` to `-1 - x`.
pub proof fn lemma_complement(s: Seq<u8>)
    requires
        s.len() > 0,
    ensures
        twos(complement(s)) == -1 - twos(s),
    decreases s.len(),
{
    let c: Seq<u8> = complement(s);
    if s.len() > 1 {
        assert(c.drop_first() =~= complement(s.drop_first()));
        lemma_complement(s.drop_first());
    }
}

/// A power of 256.
pub open spec fn pow256(k: nat) -> int
    decreases k,
{
    if k == 0 {
        1
    } else {
        256 * pow256((k - 1) as nat)
    }
}

/// Bytes of two's complement are bounded by their number.
pub proof fn lemma_twos_bound(s: Seq<u8>)
    requires
        s.len() > 0,
    ensures
        -128 * pow256((s.len() - 1) as nat) <= twos(s) < 128 * pow256((s.len() - 1) as nat),
    decreases s.len(),
{
    reveal_with_fuel(pow256, 2);
    if s.len() > 1 {
        lemma_twos_bound(s.drop_first());
        assert((s.drop_first().len() - 1) as nat == (s.len() - 2) as nat);
    }
}

/// A shortest form of more than `k` bytes lies outside the range of `k` bytes.
pub proof fn lemma_minimal_far(s: Seq<u8>, k: nat)
    requires
        minimal(s),
        0 < k < s.len(),
    ensures
        !(-128 * pow256((k - 1) as nat) <= twos(s) < 128 * pow256((k - 1) as nat)),
    decreases k,
{
    reveal_with_fuel(pow256, 2);
    lemma_minimal_range(s);
    if k > 1 {
        let rest: Seq<u8> = s.drop_first();
        assert(rest[rest.len() - 2] == s[s.len() - 2]);
        lemma_minimal_far(rest, (k - 1) as nat);
    }
}

} // verus!
