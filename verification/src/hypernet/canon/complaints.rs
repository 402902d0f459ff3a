//! What a refusal to read says of the bytes.

use super::super::app;
use super::super::scalar;
use super::super::simplex;
use super::super::types;
use super::fields;
use super::fields::word;
use super::layout;
use super::layout::{CanonFault, Parsed};
use vstd::prelude::*;

verus! {

/// What a refusal says of the bytes: where they end too early, how many there are and how
/// many are missing; which byte, tag, header or wire stands at the place it names; how many
/// bytes are too many.
pub open spec fn says(b: Seq<u8>, e: CanonFault) -> bool {
    match e {
        CanonFault::EncodeWireOutOfRange { .. } => false,
        CanonFault::EncodeNonCanonicalRational => false,
        CanonFault::Truncated { offset, needed, available, .. } => {
            &&& 0 <= offset <= b.len()
            &&& available == b.len() - offset
            &&& needed > available
        },
        CanonFault::BadMagic { got } => {
            &&& got == b.take(8)
            &&& got != seq![0x41u8, 0x58u8, 0x48u8, 0x4eu8, 0x30u8, 0x30u8, 0x30u8, 0x31u8]
        },
        CanonFault::UnknownByte { offset, got, .. } => {
            &&& 0 <= offset < b.len()
            &&& got == b[offset]
            &&& got != 0
        },
        CanonFault::UnknownTag { offset, tag } => {
            &&& 0 <= offset < b.len()
            &&& tag == b[offset]
            &&& tag > 9
        },
        CanonFault::BadAppHeader { offset, round, pad } => {
            &&& 0 <= offset
            &&& offset + 4 <= b.len()
            &&& round == b[offset + 1]
            &&& pad == b[offset + 2] + 256 * b[offset + 3]
            &&& round != 4 || pad != 0
        },
        CanonFault::NonCanonicalRational { offset, .. } => 0 <= offset <= b.len(),
        CanonFault::BitsetOverflow { offset, .. } => 0 <= offset <= b.len(),
        CanonFault::NonCanonicalSimplexOrder { offset } => 0 <= offset <= b.len(),
        CanonFault::DecodeWireOutOfRange { offset, wire, table_len } => {
            &&& 0 <= offset
            &&& offset + 4 <= b.len()
            &&& wire == word(b, offset)
            &&& wire >= table_len
        },
        CanonFault::RedundantFieldMismatch { offset, .. } => 0 <= offset <= b.len(),
        CanonFault::TrailingBytes { got } => 0 < got < b.len(),
        CanonFault::LengthOverflow { offset, got, .. } => {
            &&& 4 <= offset <= b.len()
            &&& got > b.len() - offset + 1024
        },
    }
}

/// What reading a part from `off` on does: it ends behind its start and inside the bytes, or
/// its complaint is true.
pub open spec fn honest<T>(b: Seq<u8>, off: int, r: Parsed<T>) -> bool {
    match r {
        Ok((x, e)) => off <= e <= b.len(),
        Err(e) => says(b, e),
    }
}

/// A word.
proof fn lemma_word(b: Seq<u8>, off: int, n: int, what: &'static str)
    requires
        0 <= off <= b.len(),
        0 <= n,
    ensures
        honest(b, off, layout::p_take(b, off, n, what)),
        honest(b, off, layout::p_word(b, off, n, what)),
{
}

/// Four bytes.
proof fn lemma_u32(b: Seq<u8>, off: int, what: &'static str)
    requires
        0 <= off <= b.len(),
    ensures
        honest(b, off, layout::p_u32(b, off, what)),
        layout::p_u32(b, off, what) matches Ok((x, e)) ==> e == off + 4 && x == word(b, off),
{
    lemma_word(b, off, 4, what);
    if off + 4 <= b.len() {
        fields::lemma_number(b, off, 4);
        reveal_with_fuel(fields::number, 5);
    }
}

/// Items, one behind the other.
proof fn lemma_many<T>(
    b: Seq<u8>,
    item: spec_fn(int, Seq<T>) -> Parsed<T>,
    off: int,
    n: int,
)
    requires
        0 <= off <= b.len(),
        forall|o: int, prev: Seq<T>| 0 <= o <= b.len() ==> honest(b, o, #[trigger] item(o, prev)),
    ensures
        honest(b, off, layout::many(item, off, n)),
    decreases n,
{
    if n > 0 {
        lemma_many(b, item, off, n - 1);
        if let Ok((xs, o)) = layout::many(item, off, n - 1) {
            assert(honest(b, o, item(o, xs)));
        }
    }
}

/// Words, one behind the other.
proof fn lemma_wires(b: Seq<u8>, off: int, what: &'static str, n: int)
    requires
        0 <= off <= b.len(),
    ensures
        honest(b, off, layout::many(layout::wire_item(b, what), off, n)),
{
    let item = layout::wire_item(b, what);
    assert forall|o: int, prev: Seq<u32>| 0 <= o <= b.len() implies honest(
        b,
        o,
        #[trigger] item(o, prev),
    ) by {
        lemma_u32(b, o, what);
    }
    lemma_many(b, item, off, n);
}

/// A list behind its count.
proof fn lemma_counted(b: Seq<u8>, off: int, count: &'static str, what: &'static str)
    requires
        0 <= off <= b.len(),
    ensures
        honest(b, off, layout::p_counted(b, off, count, what)),
{
    lemma_u32(b, off, count);
    if let Ok((n, o)) = layout::p_u32(b, off, count) {
        lemma_wires(b, o, what, n as int);
    }
}

/// Extents behind their count.
proof fn lemma_words(b: Seq<u8>, off: int, count: &'static str, what: &'static str)
    requires
        0 <= off <= b.len(),
    ensures
        honest(b, off, layout::p_words(b, off, count, what)),
{
    lemma_u32(b, off, count);
    if let Ok((n, o1)) = layout::p_u32(b, off, count) {
        let item = layout::word_item(b, what);
        assert forall|o: int, prev: Seq<u64>| 0 <= o <= b.len() implies honest(
            b,
            o,
            #[trigger] item(o, prev),
        ) by {
            lemma_word(b, o, 8, what);
        }
        lemma_many(b, item, o1, n as int);
    }
}

/// An element type.
proof fn lemma_dtype(b: Seq<u8>, off: int)
    requires
        0 <= off <= b.len(),
    ensures
        honest(b, off, layout::p_dtype(b, off)),
{
    lemma_word(b, off, 4, "dtype triple");
    if off + 4 <= b.len() {
        let s: Seq<u8> = b.subrange(off, off + 4);
        assert(s[0] == b[off] && s[1] == b[off + 1] && s[2] == b[off + 2] && s[3] == b[off + 3]);
    }
}

/// A rational.
proof fn lemma_rational(b: Seq<u8>, off: int)
    requires
        0 <= off <= b.len(),
    ensures
        honest(b, off, layout::p_rational(b, off)),
{
    lemma_u32(b, off, "rational numerator length");
    if let Ok((n, o1)) = layout::p_u32(b, off, "rational numerator length") {
        lemma_u32(b, o1, "rational denominator length");
        if let Ok((m, o2)) = layout::p_u32(b, o1, "rational denominator length") {
            lemma_word(b, o2, n as int, "rational numerator bytes");
            if let Ok((nb, o3)) = layout::p_take(b, o2, n as int, "rational numerator bytes") {
                lemma_word(b, o3, m as int, "rational denominator bytes");
            }
        }
    }
}

/// Rationals.
proof fn lemma_rationals(b: Seq<u8>, off: int, n: int)
    requires
        0 <= off <= b.len(),
    ensures
        honest(b, off, layout::many(layout::rational_item(b), off, n)),
{
    let item = layout::rational_item(b);
    assert forall|o: int, prev: Seq<scalar::Ratio>| 0 <= o <= b.len() implies honest(
        b,
        o,
        #[trigger] item(o, prev),
    ) by {
        lemma_rational(b, o);
    }
    lemma_many(b, item, off, n);
}

/// A set.
proof fn lemma_set(b: Seq<u8>, off: int, n: u32)
    requires
        0 <= off <= b.len(),
    ensures
        honest(b, off, layout::p_set(b, off, n)),
{
    lemma_word(b, off, layout::bitset_len(n as int), "bitset");
}

/// Simplices and cells.
proof fn lemma_faces(b: Seq<u8>, off: int, n: u32)
    requires
        0 <= off <= b.len(),
    ensures
        honest(b, off, layout::p_faces(b, off, n)),
{
    lemma_u32(b, off, "simplex count");
    if let Ok((n1, o1)) = layout::p_u32(b, off, "simplex count") {
        let i1 = layout::simplex_item(b, n);
        assert forall|o: int, prev: Seq<Set<u32>>| 0 <= o <= b.len() implies honest(
            b,
            o,
            #[trigger] i1(o, prev),
        ) by {
            lemma_set(b, o, n);
        }
        lemma_many(b, i1, o1, n1 as int);
        if let Ok((xs, o2)) = layout::many(i1, o1, n1 as int) {
            lemma_u32(b, o2, "cell count");
            if let Ok((n2, o3)) = layout::p_u32(b, o2, "cell count") {
                let i2 = layout::cell_item(b, n);
                assert forall|o: int, prev: Seq<(Set<u32>, Set<u32>)>|
                    0 <= o <= b.len() implies honest(b, o, #[trigger] i2(o, prev)) by {
                    lemma_set(b, o, n);
                    if let Ok((m, o4)) = layout::p_set(b, o, n) {
                        lemma_set(b, o4, n);
                    }
                }
                lemma_many(b, i2, o3, n2 as int);
            }
        }
    }
}

/// A complex.
proof fn lemma_complex(b: Seq<u8>, off: int)
    requires
        0 <= off <= b.len(),
    ensures
        honest(b, off, layout::p_complex(b, off)),
{
    lemma_u32(b, off, "vertex count");
    if let Ok((n, o1)) = layout::p_u32(b, off, "vertex count") {
        lemma_u32(b, o1, "ambient dimension");
        if let Ok((dim, o2)) = layout::p_u32(b, o1, "ambient dimension") {
            let item = layout::vertex_item(b, dim);
            assert forall|o: int, prev: Seq<Seq<scalar::Ratio>>|
                0 <= o <= b.len() implies honest(b, o, #[trigger] item(o, prev)) by {
                lemma_rationals(b, o, dim as int);
            }
            lemma_many(b, item, o2, n as int);
            if let Ok((vs, o3)) = layout::many(item, o2, n as int) {
                lemma_faces(b, o3, n);
            }
        }
    }
}

/// The body of a literal.
proof fn lemma_const(b: Seq<u8>, off: int, ts: Seq<types::TypeModel>)
    requires
        0 <= off <= b.len(),
        ts.len() <= u32::MAX,
    ensures
        honest(b, off, layout::p_const(b, off, ts)),
{
    lemma_u32(b, off, "const output wire");
    if let Ok((out, o)) = layout::p_u32(b, off, "const output wire") {
        if out < ts.len() {
            let size: u64 = types::entries(ts[out as int].shape);
            lemma_rationals(b, o, size as int);
            lemma_set(b, o, size as u32);
        }
    }
}

/// The body of a contraction.
proof fn lemma_contract(b: Seq<u8>, off: int, ts: Seq<types::TypeModel>)
    requires
        0 <= off <= b.len(),
        ts.len() <= u32::MAX,
    ensures
        honest(b, off, layout::p_contract(b, off, ts)),
{
    lemma_dtype(b, off);
    if let Ok((d, o1)) = layout::p_dtype(b, off) {
        lemma_counted(b, o1, "contract input count", "contract input wire");
        if let Ok((ins, o2)) = layout::p_counted(
            b,
            o1,
            "contract input count",
            "contract input wire",
        ) {
            lemma_u32(b, o2, "contract output wire");
            if let Ok((out, o3)) = layout::p_u32(b, o2, "contract output wire") {
                lemma_words(b, o3, "contract extent count", "contract extent");
                if let Ok((es, o4)) = layout::p_words(
                    b,
                    o3,
                    "contract extent count",
                    "contract extent",
                ) {
                    let item = layout::binding_item(b);
                    assert forall|o: int, prev: Seq<Seq<u32>>|
                        0 <= o <= b.len() implies honest(b, o, #[trigger] item(o, prev)) by {
                        lemma_counted(b, o, "in-binding length", "in-binding entry");
                    }
                    lemma_many(b, item, o4, ins.len() as int);
                    if let Ok((bs, o5)) = layout::many(item, o4, ins.len() as int) {
                        lemma_counted(b, o5, "out-binding length", "out-binding entry");
                    }
                }
            }
        }
    }
}

/// The body of a cast.
proof fn lemma_cast(b: Seq<u8>, off: int, ts: Seq<types::TypeModel>)
    requires
        0 <= off <= b.len(),
        ts.len() <= u32::MAX,
    ensures
        honest(b, off, layout::p_cast(b, off, ts)),
{
    lemma_dtype(b, off);
    if let Ok((d, o1)) = layout::p_dtype(b, off) {
        lemma_dtype(b, o1);
        if let Ok((e, o2)) = layout::p_dtype(b, o1) {
            lemma_words(b, o2, "shape rank", "shape extent");
            if let Ok((s, o3)) = layout::p_shape(b, o2) {
                lemma_u32(b, o3, "cast input wire");
                if let Ok((i, o4)) = layout::p_u32(b, o3, "cast input wire") {
                    lemma_u32(b, o4, "cast output wire");
                }
            }
        }
    }
}

/// A shape and two wires.
proof fn lemma_shaped(b: Seq<u8>, off: int, inp: &'static str, out: &'static str)
    requires
        0 <= off <= b.len(),
    ensures
        honest(b, off, layout::p_shaped(b, off, inp, out)),
{
    lemma_words(b, off, "shape rank", "shape extent");
    if let Ok((s, o1)) = layout::p_shape(b, off) {
        lemma_u32(b, o1, inp);
        if let Ok((i, o2)) = layout::p_u32(b, o1, inp) {
            lemma_u32(b, o2, out);
        }
    }
}

/// The bodies of the boxes without types.
proof fn lemma_plain(b: Seq<u8>, off: int)
    requires
        0 <= off <= b.len(),
    ensures
        honest(b, off, layout::p_cell(b, off)),
        honest(b, off, layout::p_copy(b, off)),
        honest(b, off, layout::p_delete(b, off)),
        honest(b, off, layout::p_stack(b, off)),
{
    lemma_u32(b, off, "cell complex index");
    if let Ok((c, o1)) = layout::p_u32(b, off, "cell complex index") {
        lemma_u32(b, o1, "cell input wire");
        if let Ok((i, o2)) = layout::p_u32(b, o1, "cell input wire") {
            lemma_counted(b, o2, "cell output count", "cell output wire");
        }
    }
    lemma_u32(b, off, "copy output count");
    if let Ok((n, o1)) = layout::p_u32(b, off, "copy output count") {
        lemma_u32(b, o1, "copy input wire");
        if let Ok((i, o2)) = layout::p_u32(b, o1, "copy input wire") {
            lemma_wires(b, o2, "copy output wire", n as int);
        }
    }
    lemma_u32(b, off, "delete input wire");
    lemma_counted(b, off, "stack input count", "stack input wire");
    if let Ok((ws, o1)) = layout::p_counted(b, off, "stack input count", "stack input wire") {
        lemma_u32(b, o1, "stack output wire");
    }
}

/// The body of a swap.
proof fn lemma_swap(b: Seq<u8>, off: int)
    requires
        0 <= off <= b.len(),
    ensures
        honest(b, off, layout::p_swap(b, off)),
{
    lemma_u32(b, off, "swap in1");
    if let Ok((w1, o1)) = layout::p_u32(b, off, "swap in1") {
        lemma_u32(b, o1, "swap in2");
        if let Ok((w2, o2)) = layout::p_u32(b, o1, "swap in2") {
            lemma_u32(b, o2, "swap out1");
            if let Ok((w3, o3)) = layout::p_u32(b, o2, "swap out1") {
                lemma_u32(b, o3, "swap out2");
            }
        }
    }
}

/// An application.
proof fn lemma_app(b: Seq<u8>, off: int, ts: Seq<types::TypeModel>)
    requires
        0 <= off <= b.len(),
        ts.len() <= u32::MAX,
    ensures
        honest(b, off, layout::p_app(b, off, ts)),
{
    lemma_word(b, off, 1, "application tag");
    if let Ok((tag, o1)) = layout::p_u8(b, off, "application tag") {
        fields::lemma_number(b, off, 1);
        reveal_with_fuel(fields::number, 3);
        assert(tag == b[off] && o1 == off + 1);
        lemma_word(b, o1, 1, "rounding mode");
        if let Ok((round, o2)) = layout::p_u8(b, o1, "rounding mode") {
            fields::lemma_number(b, o1, 1);
            assert(round == b[off + 1] && o2 == off + 2);
            lemma_word(b, o2, 2, "application pad");
            if let Ok((pad, o3)) = layout::p_u16(b, o2, "application pad") {
                fields::lemma_number(b, o2, 2);
                assert(pad == b[off + 2] + 256 * b[off + 3] && o3 == off + 4);
                if tag == 0 {
                    lemma_const(b, o3, ts);
                } else if tag == 1 {
                    lemma_contract(b, o3, ts);
                } else if tag == 2 {
                    lemma_cast(b, o3, ts);
                } else if tag == 4 {
                    lemma_shaped(b, o3, "reshape input wire", "reshape output wire");
                } else if tag == 5 {
                    lemma_shaped(b, o3, "broadcast input wire", "broadcast output wire");
                } else if tag == 8 {
                    lemma_swap(b, o3);
                } else {
                    lemma_plain(b, o3);
                }
            }
        }
    }
}

/// The wire types.
proof fn lemma_types(b: Seq<u8>, off: int)
    requires
        0 <= off <= b.len(),
    ensures
        honest(b, off, layout::p_types(b, off)),
        layout::p_types(b, off) matches Ok((ts, e)) ==> ts.len() <= u32::MAX,
{
    lemma_u32(b, off, "wire-type count");
    if let Ok((n, o1)) = layout::p_u32(b, off, "wire-type count") {
        let item = layout::type_item(b);
        assert forall|o: int, prev: Seq<types::TypeModel>| 0 <= o <= b.len() implies honest(
            b,
            o,
            #[trigger] item(o, prev),
        ) by {
            lemma_dtype(b, o);
            if let Ok((d, p)) = layout::p_dtype(b, o) {
                lemma_words(b, p, "shape rank", "shape extent");
            }
        }
        lemma_many(b, item, o1, n as int);
        lemma_many_len(item, o1, n as int);
    }
}

/// As many items as asked for.
proof fn lemma_many_len<T>(item: spec_fn(int, Seq<T>) -> Parsed<T>, off: int, n: int)
    requires
        0 <= n,
    ensures
        layout::many(item, off, n) matches Ok((xs, e)) ==> xs.len() == n,
    decreases n,
{
    if n > 0 {
        lemma_many_len(item, off, n - 1);
    }
}

/// The complexes.
proof fn lemma_pool(b: Seq<u8>, off: int)
    requires
        0 <= off <= b.len(),
    ensures
        honest(b, off, layout::p_pool(b, off)),
{
    lemma_u32(b, off, "complex count");
    if let Ok((n, o1)) = layout::p_u32(b, off, "complex count") {
        let item = layout::complex_item(b);
        assert forall|o: int, prev: Seq<simplex::ComplexModel>| 0 <= o <= b.len() implies honest(
            b,
            o,
            #[trigger] item(o, prev),
        ) by {
            lemma_complex(b, o);
        }
        lemma_many(b, item, o1, n as int);
    }
}

/// The applications.
proof fn lemma_apps(b: Seq<u8>, off: int, ts: Seq<types::TypeModel>)
    requires
        0 <= off <= b.len(),
        ts.len() <= u32::MAX,
    ensures
        honest(b, off, layout::p_apps(b, off, ts)),
{
    lemma_u32(b, off, "application count");
    if let Ok((n, o1)) = layout::p_u32(b, off, "application count") {
        let item = layout::app_item(b, ts);
        assert forall|o: int, prev: Seq<app::AppModel>| 0 <= o <= b.len() implies honest(
            b,
            o,
            #[trigger] item(o, prev),
        ) by {
            lemma_app(b, o, ts);
        }
        lemma_many(b, item, o1, n as int);
    }
}

/// A refusal to read is true of the bytes: the place that it names lies in them, and holds
/// what it says.
pub proof fn law_refusals_are_true(b: Seq<u8>)
    ensures
        layout::parse(b) matches Err(e) ==> says(b, e),
{
    lemma_word(b, 0, 8, "magic");
    if b.len() >= 8 {
        assert(b.subrange(0, 8) =~= b.take(8));
        let m: Seq<u8> = seq![0x41u8, 0x58u8, 0x48u8, 0x4eu8, 0x30u8, 0x30u8, 0x30u8, 0x31u8];
        assert(layout::magic() =~= m);
        lemma_types(b, 8);
        if let Ok((ts, o1)) = layout::p_types(b, 8) {
            lemma_pool(b, o1);
            if let Ok((cs, o2)) = layout::p_pool(b, o1) {
                lemma_apps(b, o2, ts);
                if let Ok((xs, o3)) = layout::p_apps(b, o2, ts) {
                    lemma_counted(b, o3, "graph input count", "graph input wire");
                    if let Ok((ins, o4)) = layout::p_counted(
                        b,
                        o3,
                        "graph input count",
                        "graph input wire",
                    ) {
                        lemma_counted(b, o4, "graph output count", "graph output wire");
                    }
                }
            }
        }
    }
}

} // verus!
