//! Where each field of a graph stands in its bytes, and what the bytes there say.
//!
//! The statements are about single bytes at single places, counted from the start of the
//! part that they belong to.

use super::super::int_bytes;
use super::super::scalar;
use super::super::types;
use super::super::types::{Dtype, Ext, Kind, Sign};
use super::bytes;
use super::bytes::{lemma_split, spans};
use super::layout;
use vstd::prelude::*;

verus! {

/// The number in the four bytes at `o`, lowest byte first.
pub open spec fn word(b: Seq<u8>, o: int) -> int {
    b[o] + 0x100 * b[o + 1] + 0x1_0000 * b[o + 2] + 0x100_0000 * b[o + 3]
}

/// The number in the eight bytes at `o`, lowest byte first.
pub open spec fn long_word(b: Seq<u8>, o: int) -> int {
    word(b, o) + 0x1_0000_0000 * word(b, o + 4)
}

/// Numbers of four bytes stand one behind the other from `o` on.
pub open spec fn words_stand(b: Seq<u8>, o: int, ws: Seq<u32>) -> bool {
    &&& o + 4 * ws.len() <= b.len()
    &&& forall|i: int| 0 <= i < ws.len() ==> word(b, o + 4 * i) == #[trigger] ws[i]
}

/// Numbers of eight bytes stand one behind the other from `o` on.
pub open spec fn long_words_stand(b: Seq<u8>, o: int, ws: Seq<u64>) -> bool {
    &&& o + 8 * ws.len() <= b.len()
    &&& forall|i: int| 0 <= i < ws.len() ==> long_word(b, o + 8 * i) == #[trigger] ws[i]
}

/// The four bytes at `o` are an element type: kind, signedness, extension, zero.
pub open spec fn dtype_stands(b: Seq<u8>, o: int, d: Dtype) -> bool {
    &&& o + 4 <= b.len()
    &&& b[o] == match d.kind {
        Kind::Bool => 0int,
        Kind::Int => 1,
        Kind::Rat => 2,
        Kind::F16 => 3,
        Kind::Bf16 => 4,
        Kind::F32 => 5,
        Kind::F64 => 6,
    }
    &&& b[o + 1] == match d.sign {
        Sign::NonNeg => 0int,
        Sign::Signed => 1,
    }
    &&& b[o + 2] == match d.ext {
        Ext::Fin => 0int,
        Ext::Ext => 1,
    }
    &&& b[o + 3] == 0
}

/// A shape stands at `o`: the rank in four bytes, then the extents in eight bytes each.
pub open spec fn shape_stands(b: Seq<u8>, o: int, s: Seq<u64>) -> bool {
    &&& o + 4 <= b.len()
    &&& word(b, o) == s.len()
    &&& long_words_stand(b, o + 4, s)
}

/// A tensor type stands at `o`.
pub open spec fn type_stands(b: Seq<u8>, o: int, t: types::TypeModel) -> bool {
    &&& dtype_stands(b, o, t.dtype)
    &&& shape_stands(b, o + 4, t.shape)
}

/// A list of wires or indices stands at `o`: the count in four bytes, then the items in four
/// bytes each.
pub open spec fn list_stands(b: Seq<u8>, o: int, ws: Seq<u32>) -> bool {
    &&& o + 4 <= b.len()
    &&& word(b, o) == ws.len()
    &&& words_stand(b, o + 4, ws)
}

/// The number in the `n` bytes at `o`, lowest byte first.
pub open spec fn number(b: Seq<u8>, o: int, n: int) -> int
    decreases n,
{
    if n <= 0 {
        0
    } else {
        b[o] + 0x100 * number(b, o + 1, n - 1)
    }
}

/// The power of 256.
pub open spec fn byte_power(n: int) -> int
    decreases n,
{
    if n <= 0 {
        1
    } else {
        0x100 * byte_power(n - 1)
    }
}

/// A rational stands at `o`: the length of the numerator, the length of the denominator, the
/// numerator in two's complement, the denominator as it is; no byte is redundant.
pub open spec fn rational_stands(b: Seq<u8>, o: int, q: scalar::Ratio) -> bool {
    let n = word(b, o);
    let m = word(b, o + 4);
    &&& o + 8 + n + m <= b.len()
    &&& 0 < n
    &&& 0 < m
    &&& q.num == number(b, o + 8, n) - if b[o + 8 + n - 1] >= 128 {
        byte_power(n)
    } else {
        0
    }
    &&& q.den == number(b, o + 8 + n, m)
    &&& n > 1 ==> !(b[o + 8 + n - 1] == 0 && b[o + 8 + n - 2] < 128)
    &&& n > 1 ==> !(b[o + 8 + n - 1] == 255 && b[o + 8 + n - 2] >= 128)
    &&& b[o + 8 + n + m - 1] != 0
}

/// Where the rational behind the one at `o` stands.
pub open spec fn behind_rational(b: Seq<u8>, o: int) -> int {
    o + 8 + word(b, o) + word(b, o + 4)
}

/// Rationals stand one behind the other from `o` up to `end`.
pub open spec fn rationals_stand(b: Seq<u8>, o: int, end: int, qs: Seq<scalar::Ratio>) -> bool
    decreases qs.len(),
{
    if qs.len() == 0 {
        o == end
    } else {
        &&& rational_stands(b, o, qs[0])
        &&& rationals_stand(b, behind_rational(b, o), end, qs.drop_first())
    }
}

/// Binary digit `j` of a number.
pub open spec fn digit(x: int, j: int) -> int
    decreases j,
{
    if j <= 0 {
        x % 2
    } else {
        digit(x / 2, j - 1)
    }
}

/// Bits stand at `o`, eight to a byte, the lowest first; those that are left over are zero.
pub open spec fn bits_stand(b: Seq<u8>, o: int, n: int, f: spec_fn(int) -> bool) -> bool {
    let len = (n + 7) / 8;
    &&& o + len <= b.len()
    &&& forall|i: int|
        0 <= i < 8 * len ==> (#[trigger] digit(b[o + i / 8] as int, i % 8) == 1 <==> i < n && f(i))
}

/// The members of a set.
pub open spec fn members(s: Set<u32>) -> spec_fn(int) -> bool {
    |i: int| s.contains(i as u32)
}

/// The bits of a list.
pub open spec fn flags(s: Seq<bool>) -> spec_fn(int) -> bool {
    |i: int| s[i]
}

// ---- words ----

/// Four bytes spell their number.
pub proof fn lemma_word(b: Seq<u8>, o: int, e: int, x: u32)
    requires
        spans(b, o, e, layout::le32(x)),
    ensures
        e == o + 4,
        word(b, o) == x,
{
    reveal_with_fuel(layout::le, 5);
    let s: Seq<u8> = layout::le32(x);
    let y: int = x as int;
    assert(s.len() == 4);
    assert(b[o] == b.subrange(o, e)[0]);
    assert(b[o + 1] == b.subrange(o, e)[1]);
    assert(b[o + 2] == b.subrange(o, e)[2]);
    assert(b[o + 3] == b.subrange(o, e)[3]);
    assert(s[0] == y % 256);
    assert(s[1] == (y / 256) % 256);
    assert(s[2] == (y / 256 / 256) % 256);
    assert(s[3] == (y / 256 / 256 / 256) % 256);
}

/// The lowest eight bytes of a number are the lowest four and the next four.
proof fn lemma_le_halves(x: u64)
    ensures
        layout::le64(x) == layout::le32((x % 0x1_0000_0000) as u32) + layout::le32(
            (x / 0x1_0000_0000) as u32,
        ),
{
    reveal_with_fuel(layout::le, 9);
    let y: int = x as int;
    let lo: int = y % 0x1_0000_0000;
    let hi: int = y / 0x1_0000_0000;
    assert(lo % 256 == y % 256);
    assert((lo / 256) % 256 == (y / 256) % 256);
    assert((lo / 256 / 256) % 256 == (y / 256 / 256) % 256);
    assert((lo / 256 / 256 / 256) % 256 == (y / 256 / 256 / 256) % 256);
    assert(y / 256 / 256 / 256 / 256 == hi);
    assert(layout::le64(x) =~= layout::le32((x % 0x1_0000_0000) as u32) + layout::le32(
        (x / 0x1_0000_0000) as u32,
    ));
}

/// Eight bytes spell their number.
proof fn lemma_long_word(b: Seq<u8>, o: int, e: int, x: u64)
    requires
        spans(b, o, e, layout::le64(x)),
    ensures
        e == o + 8,
        long_word(b, o) == x,
{
    let lo: u32 = (x % 0x1_0000_0000) as u32;
    let hi: u32 = (x / 0x1_0000_0000) as u32;
    lemma_le_halves(x);
    bytes::lemma_le(lo as nat, 4);
    lemma_split(b, o, e, layout::le32(lo), layout::le32(hi));
    lemma_word(b, o, o + 4, lo);
    lemma_word(b, o + 4, e, hi);
}

/// Words one behind the other.
pub proof fn lemma_words(b: Seq<u8>, o: int, e: int, ws: Seq<u32>)
    requires
        spans(b, o, e, layout::spell_wires(ws)),
    ensures
        e == o + 4 * ws.len(),
        words_stand(b, o, ws),
    decreases ws.len(),
{
    if ws.len() > 0 {
        let most: Seq<u32> = ws.drop_last();
        let s: Seq<u8> = layout::spell_wires(most);
        lemma_split(b, o, e, s, layout::le32(ws.last()));
        lemma_words(b, o, o + s.len(), most);
        lemma_word(b, o + s.len(), e, ws.last());
        assert forall|i: int| 0 <= i < ws.len() implies word(b, o + 4 * i) == #[trigger] ws[i] by {
            if i < most.len() {
                assert(most[i] == ws[i]);
            }
        }
    } else {
        assert(b.subrange(o, e).len() == 0);
    }
}

/// Long words one behind the other.
proof fn lemma_long_words(b: Seq<u8>, o: int, e: int, ws: Seq<u64>)
    requires
        spans(b, o, e, layout::spell_words(ws)),
    ensures
        e == o + 8 * ws.len(),
        long_words_stand(b, o, ws),
    decreases ws.len(),
{
    if ws.len() > 0 {
        let most: Seq<u64> = ws.drop_last();
        let s: Seq<u8> = layout::spell_words(most);
        lemma_split(b, o, e, s, layout::le64(ws.last()));
        lemma_long_words(b, o, o + s.len(), most);
        lemma_long_word(b, o + s.len(), e, ws.last());
        assert forall|i: int| 0 <= i < ws.len() implies long_word(b, o + 8 * i)
            == #[trigger] ws[i] by {
            if i < most.len() {
                assert(most[i] == ws[i]);
            }
        }
    } else {
        assert(b.subrange(o, e).len() == 0);
    }
}

/// A list behind its count.
pub proof fn lemma_list(b: Seq<u8>, o: int, e: int, ws: Seq<u32>)
    requires
        spans(b, o, e, layout::spell_counted(ws)),
        ws.len() <= u32::MAX,
    ensures
        e == o + 4 + 4 * ws.len(),
        list_stands(b, o, ws),
{
    let n: u32 = ws.len() as u32;
    bytes::lemma_le(n as nat, 4);
    lemma_split(b, o, e, layout::le32(n), layout::spell_wires(ws));
    lemma_word(b, o, o + 4, n);
    lemma_words(b, o + 4, e, ws);
}

/// A shape.
pub proof fn lemma_shape(b: Seq<u8>, o: int, e: int, s: Seq<u64>)
    requires
        spans(b, o, e, layout::spell_shape(s)),
        s.len() <= u32::MAX,
    ensures
        e == o + 4 + 8 * s.len(),
        shape_stands(b, o, s),
{
    let n: u32 = s.len() as u32;
    bytes::lemma_le(n as nat, 4);
    lemma_split(b, o, e, layout::le32(n), layout::spell_words(s));
    lemma_word(b, o, o + 4, n);
    lemma_long_words(b, o + 4, e, s);
}

/// An element type.
pub proof fn lemma_dtype(b: Seq<u8>, o: int, e: int, d: Dtype)
    requires
        spans(b, o, e, layout::spell_dtype(d)),
    ensures
        e == o + 4,
        dtype_stands(b, o, d),
{
    let s: Seq<u8> = layout::spell_dtype(d);
    assert(s.len() == 4);
    assert(b[o] == b.subrange(o, e)[0]);
    assert(b[o + 1] == b.subrange(o, e)[1]);
    assert(b[o + 2] == b.subrange(o, e)[2]);
    assert(b[o + 3] == b.subrange(o, e)[3]);
}

/// A tensor type.
pub proof fn lemma_type(b: Seq<u8>, o: int, e: int, t: types::TypeModel)
    requires
        spans(b, o, e, layout::spell_type(t)),
        t.shape.len() <= u32::MAX,
    ensures
        e == o + 8 + 8 * t.shape.len(),
        type_stands(b, o, t),
{
    lemma_split(b, o, e, layout::spell_dtype(t.dtype), layout::spell_shape(t.shape));
    lemma_dtype(b, o, o + 4, t.dtype);
    lemma_shape(b, o + 4, e, t.shape);
}

/// Item `i` of a list stands behind the items in front of it.
pub proof fn lemma_item<T>(b: Seq<u8>, o: int, e: int, f: spec_fn(T) -> Seq<u8>, xs: Seq<T>, i: int)
    requires
        spans(b, o, e, layout::spell_all(f, xs)),
        0 <= i < xs.len(),
    ensures
        spans(
            b,
            o + layout::spell_all(f, xs.take(i)).len(),
            o + layout::spell_all(f, xs.take(i + 1)).len(),
            f(xs[i]),
        ),
        o + layout::spell_all(f, xs.take(i + 1)).len() <= e,
    decreases xs.len(),
{
    let most: Seq<T> = xs.drop_last();
    let s: Seq<u8> = layout::spell_all(f, most);
    lemma_split(b, o, e, s, f(xs.last()));
    if i == xs.len() - 1 {
        assert(xs.take(i) =~= most);
        assert(xs.take(i + 1) =~= xs);
        assert(b.subrange(o, e).len() == e - o);
    } else {
        lemma_item(b, o, o + s.len(), f, most, i);
        assert(most.take(i) =~= xs.take(i));
        assert(most.take(i + 1) =~= xs.take(i + 1));
        assert(most[i] == xs[i]);
    }
}

// ---- rationals ----

/// The number in a stretch of bytes.
pub proof fn lemma_number(b: Seq<u8>, o: int, n: int)
    requires
        0 <= o,
        0 <= n,
        o + n <= b.len(),
    ensures
        number(b, o, n) == int_bytes::magnitude(b.subrange(o, o + n)),
    decreases n,
{
    reveal_with_fuel(int_bytes::magnitude, 2);
    if n > 0 {
        lemma_number(b, o + 1, n - 1);
        assert(b.subrange(o, o + n).drop_first() =~= b.subrange(o + 1, o + n));
    }
}

/// Two's complement: the magnitude, less a power of 256 where the highest bit is set.
proof fn lemma_twos(s: Seq<u8>)
    requires
        s.len() > 0,
    ensures
        int_bytes::twos(s) == int_bytes::magnitude(s) - if s.last() >= 128 {
            byte_power(s.len() as int)
        } else {
            0
        },
    decreases s.len(),
{
    reveal_with_fuel(int_bytes::magnitude, 3);
    reveal_with_fuel(int_bytes::twos, 2);
    reveal_with_fuel(byte_power, 3);
    if s.len() > 1 {
        let rest: Seq<u8> = s.drop_first();
        lemma_twos(rest);
        assert(rest.last() == s.last());
    } else {
        assert(s.drop_first().len() == 0);
        assert(byte_power(1) == 0x100);
    }
}

/// A rational.
proof fn lemma_rational(b: Seq<u8>, o: int, e: int, q: scalar::Ratio)
    requires
        spans(b, o, e, layout::spell_rational(q)),
        q.den > 0,
        int_bytes::signed_bytes(q.num).len() <= u32::MAX,
        int_bytes::magnitude_bytes(q.den as nat).len() <= u32::MAX,
    ensures
        rational_stands(b, o, q),
        e == behind_rational(b, o),
{
    let nb: Seq<u8> = int_bytes::signed_bytes(q.num);
    let db: Seq<u8> = int_bytes::magnitude_bytes(q.den as nat);
    let n: int = nb.len() as int;
    let m: int = db.len() as int;
    let s0: Seq<u8> = layout::le32(n as u32);
    let s1: Seq<u8> = layout::le32(m as u32);
    bytes::lemma_le(n as nat, 4);
    bytes::lemma_le(m as nat, 4);
    lemma_split(b, o, e, s0 + s1 + nb, db);
    lemma_split(b, o, o + 8 + n, s0 + s1, nb);
    lemma_split(b, o, o + 8, s0, s1);
    lemma_word(b, o, o + 4, n as u32);
    lemma_word(b, o + 4, o + 8, m as u32);
    int_bytes::lemma_signed_bytes(q.num);
    int_bytes::lemma_magnitude_bytes(q.den as nat);
    lemma_twos(nb);
    lemma_number(b, o + 8, n);
    lemma_number(b, o + 8 + n, m);
    assert(nb.last() == b[o + 8 + n - 1]) by {
        assert(b.subrange(o + 8, o + 8 + n)[n - 1] == b[o + 8 + n - 1]);
    }
    assert(db.last() == b[o + 8 + n + m - 1]) by {
        assert(b.subrange(o + 8 + n, e)[m - 1] == b[o + 8 + n + m - 1]);
    }
    if n > 1 {
        assert(nb[n - 2] == b[o + 8 + n - 2]) by {
            assert(b.subrange(o + 8, o + 8 + n)[n - 2] == b[o + 8 + n - 2]);
        }
    }
}

/// A list that begins with an item.
pub proof fn lemma_spell_first<T>(f: spec_fn(T) -> Seq<u8>, xs: Seq<T>)
    requires
        xs.len() > 0,
    ensures
        layout::spell_all(f, xs) == f(xs[0]) + layout::spell_all(f, xs.drop_first()),
    decreases xs.len(),
{
    reveal_with_fuel(layout::spell_all, 2);
    if xs.len() == 1 {
        assert(xs.drop_first().len() == 0);
        assert(xs.drop_last().len() == 0);
        assert(layout::spell_all(f, xs) =~= f(xs[0]) + layout::spell_all(f, xs.drop_first()));
    } else {
        lemma_spell_first(f, xs.drop_last());
        assert(xs.drop_last().drop_first() =~= xs.drop_first().drop_last());
        assert(layout::spell_all(f, xs) =~= f(xs[0]) + layout::spell_all(f, xs.drop_first()));
    }
}

/// A rational that four bytes can measure.
pub open spec fn measurable(q: scalar::Ratio) -> bool {
    &&& q.den > 0
    &&& int_bytes::signed_bytes(q.num).len() <= u32::MAX
    &&& int_bytes::magnitude_bytes(q.den as nat).len() <= u32::MAX
}

/// Rationals one behind the other.
pub proof fn lemma_rationals(b: Seq<u8>, o: int, e: int, qs: Seq<scalar::Ratio>)
    requires
        spans(b, o, e, layout::spell_rationals(qs)),
        forall|i: int| 0 <= i < qs.len() ==> measurable(#[trigger] qs[i]),
    ensures
        rationals_stand(b, o, e, qs),
    decreases qs.len(),
{
    if qs.len() > 0 {
        let f = |q: scalar::Ratio| layout::spell_rational(q);
        let rest: Seq<scalar::Ratio> = qs.drop_first();
        lemma_spell_first(f, qs);
        let s: Seq<u8> = layout::spell_rational(qs[0]);
        assert(measurable(qs[0]));
        lemma_split(b, o, e, s, layout::spell_rationals(rest));
        lemma_rational(b, o, o + s.len(), qs[0]);
        assert forall|i: int| 0 <= i < rest.len() implies measurable(#[trigger] rest[i]) by {
            assert(rest[i] == qs[i + 1]);
        }
        lemma_rationals(b, o + s.len(), e, rest);
    } else {
        assert(b.subrange(o, e).len() == 0);
    }
}

// ---- bits ----

/// A binary digit is a bit of the byte.
proof fn lemma_digit(x: u8, j: int)
    requires
        0 <= j < 8,
    ensures
        digit(x as int, j) == 1 <==> layout::bit(x, j),
{
    reveal_with_fuel(digit, 9);
    let y: int = x as int;
    assert(y / 2 / 2 == y / 4);
    assert(y / 2 / 2 / 2 == y / 8);
    assert(y / 2 / 2 / 2 / 2 == y / 16);
    assert(y / 2 / 2 / 2 / 2 / 2 == y / 32);
    assert(y / 2 / 2 / 2 / 2 / 2 / 2 == y / 64);
    assert(y / 2 / 2 / 2 / 2 / 2 / 2 / 2 == y / 128);
    if j == 0 {
    } else if j == 1 {
    } else if j == 2 {
    } else if j == 3 {
    } else if j == 4 {
    } else if j == 5 {
    } else if j == 6 {
    } else {
    }
}

/// A set as bits.
pub proof fn lemma_set(b: Seq<u8>, o: int, e: int, s: Set<u32>, n: u32)
    requires
        spans(b, o, e, layout::spell_set(s, n)),
        forall|x: u32| #[trigger] s.contains(x) ==> x < n,
    ensures
        e == o + (n + 7) / 8,
        bits_stand(b, o, n as int, members(s)),
{
    let f = layout::in_set(s);
    let t: Seq<u8> = layout::spell_set(s, n);
    let len: int = (n + 7) / 8;
    assert(t.len() == len);
    assert(b.subrange(o, e).len() == e - o);
    let g = members(s);
    assert forall|i: int| 0 <= i < 8 * len implies (#[trigger] digit(b[o + i / 8] as int, i % 8) == 1
        <==> i < n && g(i)) by {
        assert(b[o + i / 8] == b.subrange(o, e)[i / 8]);
        lemma_digit(b[o + i / 8], i % 8);
        bytes::lemma_packed_bit(f, 8 * (i / 8), i % 8);
        assert(8 * (i / 8) + i % 8 == i);
        if i <= u32::MAX && s.contains(i as u32) {
            assert((i as u32) < n);
        }
    }
}

/// The bits of a literal.
pub proof fn lemma_flags(b: Seq<u8>, o: int, e: int, bits: Seq<bool>)
    requires
        spans(b, o, e, layout::spell_set(layout::marked(bits), bits.len() as u32)),
        bits.len() <= u32::MAX,
    ensures
        e == o + (bits.len() + 7) / 8,
        bits_stand(b, o, bits.len() as int, flags(bits)),
{
    let s: Set<u32> = layout::marked(bits);
    let n: u32 = bits.len() as u32;
    assert forall|x: u32| #[trigger] s.contains(x) implies x < n by {
        let i: int = choose|i: int| 0 <= i < bits.len() && #[trigger] bits[i] && i as u32 == x;
        assert(i < n);
    }
    lemma_set(b, o, e, s, n);
    let f = flags(bits);
    let g = members(s);
    let len: int = (n + 7) / 8;
    assert forall|i: int| 0 <= i < 8 * len implies (#[trigger] digit(b[o + i / 8] as int, i % 8) == 1
        <==> i < bits.len() && f(i)) by {
        assert(digit(b[o + i / 8] as int, i % 8) == 1 <==> i < n && g(i));
        if i < n {
            if s.contains(i as u32) {
                let k: int = choose|k: int|
                    0 <= k < bits.len() && #[trigger] bits[k] && k as u32 == i as u32;
                assert(k == i);
            }
            if bits[i] {
                assert(s.contains(i as u32));
            }
        }
    }
}

} // verus!
