//! Facts on bytes: little-endian words, bitsets, and stretches of a byte string.

use super::super::int_bytes;
use super::layout;
use vstd::prelude::*;

verus! {

/// The bytes from `off` up to `end` are `s`.
pub open spec fn spans(b: Seq<u8>, off: int, end: int, s: Seq<u8>) -> bool {
    &&& 0 <= off <= end <= b.len()
    &&& b.subrange(off, end) == s
}

/// Two stretches that meet are one.
pub proof fn lemma_join(b: Seq<u8>, o0: int, o1: int, o2: int, s: Seq<u8>, t: Seq<u8>)
    requires
        spans(b, o0, o1, s),
        spans(b, o1, o2, t),
    ensures
        spans(b, o0, o2, s + t),
{
    assert(b.subrange(o0, o2) =~= s + t);
}

/// One stretch falls into two.
pub proof fn lemma_split(b: Seq<u8>, o0: int, o2: int, s: Seq<u8>, t: Seq<u8>)
    requires
        spans(b, o0, o2, s + t),
    ensures
        spans(b, o0, o0 + s.len(), s),
        spans(b, o0 + s.len(), o2, t),
{
    let all: Seq<u8> = b.subrange(o0, o2);
    assert(all.len() == s.len() + t.len());
    assert forall|i: int| 0 <= i < s.len() implies b[o0 + i] == s[i] by {
        assert(all[i] == (s + t)[i]);
    }
    assert forall|i: int| 0 <= i < t.len() implies b[o0 + s.len() + i] == t[i] by {
        assert(all[s.len() + i] == (s + t)[s.len() + i]);
    }
    assert(b.subrange(o0, o0 + s.len()) =~= s);
    assert(b.subrange(o0 + s.len(), o2) =~= t);
}

/// The lowest bytes of a number that fits spell it.
pub proof fn lemma_le(x: nat, n: nat)
    ensures
        layout::le(x, n).len() == n,
        x < int_bytes::pow256(n) ==> int_bytes::magnitude(layout::le(x, n)) == x,
    decreases n,
{
    reveal_with_fuel(int_bytes::magnitude, 2);
    reveal_with_fuel(int_bytes::pow256, 2);
    if n > 0 {
        lemma_le(x / 256, (n - 1) as nat);
        assert(layout::le(x, n).drop_first() =~= layout::le(x / 256, (n - 1) as nat));
    }
}

/// Bytes are the lowest bytes of the number that they spell.
pub proof fn lemma_le_unique(s: Seq<u8>)
    ensures
        layout::le(int_bytes::magnitude(s), s.len()) == s,
        int_bytes::magnitude(s) < int_bytes::pow256(s.len()),
    decreases s.len(),
{
    reveal_with_fuel(int_bytes::magnitude, 2);
    reveal_with_fuel(int_bytes::pow256, 2);
    if s.len() > 0 {
        let rest: Seq<u8> = s.drop_first();
        lemma_le_unique(rest);
        let m: nat = int_bytes::magnitude(s);
        assert(m == s[0] + 256 * int_bytes::magnitude(rest));
        assert(m % 256 == s[0]);
        assert(m / 256 == int_bytes::magnitude(rest));
        assert(layout::le(m, s.len()) =~= s);
    } else {
        assert(layout::le(int_bytes::magnitude(s), s.len()) =~= s);
    }
}

/// The numbers of one, two, four and eight bytes.
pub proof fn lemma_pow256()
    ensures
        int_bytes::pow256(1) == 0x100,
        int_bytes::pow256(2) == 0x1_0000,
        int_bytes::pow256(4) == 0x1_0000_0000,
        int_bytes::pow256(8) == 0x1_0000_0000_0000_0000,
{
    reveal_with_fuel(int_bytes::pow256, 9);
}

/// A number below two and twice another one.
proof fn lemma_halve(x: int, low: int, rest: int)
    requires
        x == low + 2 * rest,
        0 <= low < 2,
        0 <= rest,
    ensures
        x / 2 == rest,
        x % 2 == low,
{
}

/// The binary digits of a byte.
proof fn lemma_digits(f: Seq<int>, x: int)
    requires
        f.len() == 8,
        forall|i: int| 0 <= i < 8 ==> 0 <= #[trigger] f[i] < 2,
        x == f[0] + 2 * f[1] + 4 * f[2] + 8 * f[3] + 16 * f[4] + 32 * f[5] + 64 * f[6] + 128 * f[7],
    ensures
        x % 2 == f[0],
        (x / 2) % 2 == f[1],
        (x / 4) % 2 == f[2],
        (x / 8) % 2 == f[3],
        (x / 16) % 2 == f[4],
        (x / 32) % 2 == f[5],
        (x / 64) % 2 == f[6],
        (x / 128) % 2 == f[7],
{
    let x7: int = f[7];
    let x6: int = f[6] + 2 * x7;
    let x5: int = f[5] + 2 * x6;
    let x4: int = f[4] + 2 * x5;
    let x3: int = f[3] + 2 * x4;
    let x2: int = f[2] + 2 * x3;
    let x1: int = f[1] + 2 * x2;
    lemma_halve(x, f[0], x1);
    lemma_halve(x1, f[1], x2);
    lemma_halve(x2, f[2], x3);
    lemma_halve(x3, f[3], x4);
    lemma_halve(x4, f[4], x5);
    lemma_halve(x5, f[5], x6);
    lemma_halve(x6, f[6], x7);
    assert(x / 4 == x1 / 2);
    assert(x / 8 == x2 / 2);
    assert(x / 16 == x3 / 2);
    assert(x / 32 == x4 / 2);
    assert(x / 64 == x5 / 2);
    assert(x / 128 == x6 / 2);
}

/// One for yes.
spec fn one(x: bool) -> int {
    if x {
        1
    } else {
        0
    }
}

/// The bits of a packed byte are the answers that it packs.
pub proof fn lemma_packed_bit(f: spec_fn(int) -> bool, base: int, j: int)
    requires
        0 <= j < 8,
    ensures
        layout::bit(layout::packed_byte(f, base), j) == f(base + j),
{
    let x: int = layout::packed_byte(f, base) as int;
    let d: Seq<int> = seq![
        one(f(base)),
        one(f(base + 1)),
        one(f(base + 2)),
        one(f(base + 3)),
        one(f(base + 4)),
        one(f(base + 5)),
        one(f(base + 6)),
        one(f(base + 7)),
    ];
    lemma_digits(d, x);
}

/// A byte packs its own bits.
pub proof fn lemma_packed_own(f: spec_fn(int) -> bool, base: int, x: u8)
    requires
        forall|j: int| 0 <= j < 8 ==> f(base + j) == #[trigger] layout::bit(x, j),
    ensures
        layout::packed_byte(f, base) == x,
{
    assert(f(base + 0) == layout::bit(x, 0));
    assert(f(base + 1) == layout::bit(x, 1));
    assert(f(base + 2) == layout::bit(x, 2));
    assert(f(base + 3) == layout::bit(x, 3));
    assert(f(base + 4) == layout::bit(x, 4));
    assert(f(base + 5) == layout::bit(x, 5));
    assert(f(base + 6) == layout::bit(x, 6));
    assert(f(base + 7) == layout::bit(x, 7));
    lemma_binary(x as int);
}

/// A byte is the sum of its binary digits.
proof fn lemma_binary(y: int)
    requires
        0 <= y < 256,
    ensures
        y == y % 2 + 2 * ((y / 2) % 2) + 4 * ((y / 4) % 2) + 8 * ((y / 8) % 2) + 16 * ((y / 16) % 2)
            + 32 * ((y / 32) % 2) + 64 * ((y / 64) % 2) + 128 * ((y / 128) % 2),
{
    let y1: int = y / 2;
    let y2: int = y1 / 2;
    let y3: int = y2 / 2;
    let y4: int = y3 / 2;
    let y5: int = y4 / 2;
    let y6: int = y5 / 2;
    let y7: int = y6 / 2;
    assert(y / 4 == y2);
    assert(y / 8 == y3);
    assert(y / 16 == y4);
    assert(y / 32 == y5);
    assert(y / 64 == y6);
    assert(y / 128 == y7);
}

/// A set that was read from bytes is spelled by those bytes.
pub proof fn lemma_set_respells(s: Seq<u8>, n: u32)
    requires
        s.len() == layout::bitset_len(n as int),
        !layout::stray(s, n as int),
    ensures
        layout::spell_set(layout::places(s, n as int), n) == s,
{
    let f = layout::in_set(layout::places(s, n as int));
    assert forall|k: int| 0 <= k < s.len() implies layout::packed_byte(f, 8 * k) == s[k] by {
        assert forall|j: int| 0 <= j < 8 implies f(8 * k + j) == #[trigger] layout::bit(s[k], j) by {
            let i: int = 8 * k + j;
            assert(i / 8 == k && i % 8 == j);
            assert(layout::bit_at(s, i) == layout::bit(s[k], j));
            if i >= n {
                assert(!layout::bit_at(s, i));
            }
        }
        lemma_packed_own(f, 8 * k, s[k]);
    }
    assert(layout::spell_set(layout::places(s, n as int), n) =~= s);
}

/// A set among `n` places is read back from its bytes.
pub proof fn lemma_set_reads_back(m: Set<u32>, n: u32)
    requires
        forall|x: u32| #[trigger] m.contains(x) ==> x < n,
    ensures
        layout::spell_set(m, n).len() == layout::bitset_len(n as int),
        !layout::stray(layout::spell_set(m, n), n as int),
        layout::places(layout::spell_set(m, n), n as int) == m,
{
    let s: Seq<u8> = layout::spell_set(m, n);
    let f = layout::in_set(m);
    assert forall|i: int| 0 <= i < 8 * s.len() implies #[trigger] layout::bit_at(s, i) == f(i) by {
        lemma_packed_bit(f, 8 * (i / 8), i % 8);
        assert(8 * (i / 8) + i % 8 == i);
    }
    assert forall|x: u32| layout::places(s, n as int).contains(x) == m.contains(x) by {
        if x < n {
            assert(layout::bit_at(s, x as int) == f(x as int));
        }
    }
    assert(layout::places(s, n as int) =~= m);
}

} // verus!
