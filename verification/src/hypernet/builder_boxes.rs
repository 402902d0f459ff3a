//! What a call of the builder appends and hands back: which box, over which wires, with
//! which types, and when the call is refused.

use super::app;
use super::app::Wire;
use super::builder;
use super::builder::BuildFault;
use super::faults;
use super::simplex;
use super::types;
use super::types::{Dtype, Ext, Kind, Sign};
use vstd::prelude::*;

verus! {

/// Wire `w` has a type and nobody reads it yet.
pub open spec fn free(b: builder::BuilderModel, w: Wire) -> bool {
    w < b.net.wire_types.len() && !b.consumed.contains_key(w)
}

/// Every wire of a list is free, and none is listed twice.
pub open spec fn all_free(b: builder::BuilderModel, ws: Seq<Wire>) -> bool {
    &&& forall|i: int| 0 <= i < ws.len() ==> free(b, #[trigger] ws[i])
    &&& forall|i: int, j: int| 0 <= i < j < ws.len() ==> #[trigger] ws[i] != #[trigger] ws[j]
}

/// From `b` to `c` exactly the wires `ws` became read, by the application that `b` would
/// number next.
pub open spec fn took(b: builder::BuilderModel, c: builder::BuilderModel, ws: Seq<Wire>) -> bool {
    &&& forall|w: Wire| #[trigger]
        c.consumed.contains_key(w) <==> b.consumed.contains_key(w) || ws.contains(w)
    &&& forall|w: Wire|
        b.consumed.contains_key(w) ==> #[trigger] c.consumed[w] == b.consumed[w]
    &&& forall|i: int|
        0 <= i < ws.len() ==> c.consumed[#[trigger] ws[i]] == b.net.apps.len() as u32
}

/// From `b` to `c` one application `a` was appended: it reads `ins`, which were free, and
/// writes `outs`, which are the next wires and have the types `ts`. Nothing else changed.
pub open spec fn appended(
    b: builder::BuilderModel,
    c: builder::BuilderModel,
    a: app::AppModel,
    ins: Seq<Wire>,
    outs: Seq<Wire>,
    ts: Seq<types::TypeModel>,
) -> bool {
    &&& c.net.apps.len() == b.net.apps.len() + 1
    &&& c.net.apps[b.net.apps.len() as int] == a
    &&& forall|i: int| 0 <= i < b.net.apps.len() ==> #[trigger] c.net.apps[i] == b.net.apps[i]
    &&& c.net.wire_types.len() == b.net.wire_types.len() + ts.len()
    &&& forall|i: int|
        0 <= i < b.net.wire_types.len() ==> #[trigger] c.net.wire_types[i]
            == b.net.wire_types[i]
    &&& outs.len() == ts.len()
    &&& forall|i: int|
        0 <= i < outs.len() ==> {
            &&& (#[trigger] outs[i]) == b.net.wire_types.len() + i
            &&& c.net.wire_types[outs[i] as int] == ts[i]
        }
    &&& c.net.complexes == b.net.complexes
    &&& c.net.graph_inputs == b.net.graph_inputs
    &&& c.net.graph_outputs == b.net.graph_outputs
    &&& all_free(b, ins)
    &&& took(b, c, ins)
    &&& a.reads() == ins
    &&& a.writes() == outs
}

/// A refused call appends nothing.
pub open spec fn untouched(b: builder::BuilderModel, c: builder::BuilderModel) -> bool {
    c.net == b.net
}

/// The product of the extents, taken from the first axis on.
pub open spec fn volume(shape: Seq<u64>) -> nat
    decreases shape.len(),
{
    if shape.len() == 0 {
        1
    } else {
        (shape[0] * volume(shape.subrange(1, shape.len() as int))) as nat
    }
}

/// The product of the extents does not depend on the end from which it is taken.
pub proof fn lemma_volume(shape: Seq<u64>)
    ensures
        volume(shape) == types::extent_product(shape),
    decreases shape.len(),
{
    if shape.len() == 1 {
        assert(shape.subrange(1, 1).len() == 0);
        assert(volume(shape.subrange(1, 1)) == 1);
        assert(shape.drop_last().len() == 0);
        assert(types::extent_product(shape.drop_last()) == 1);
        assert(shape[0] * 1 == shape[0]) by (nonlinear_arith);
        assert(1 * shape.last() as nat == shape.last()) by (nonlinear_arith);
    } else if shape.len() > 1 {
        let n: int = shape.len() as int;
        let tail: Seq<u64> = shape.subrange(1, n);
        let head: Seq<u64> = shape.drop_last();
        let mid: Seq<u64> = shape.subrange(1, n - 1);
        lemma_volume(tail);
        lemma_volume(head);
        lemma_volume(mid);
        assert(tail.drop_last() =~= mid);
        assert(head.subrange(1, n - 1) =~= mid);
        assert(head[0] == shape[0] && tail.last() == shape.last());
        let m: int = volume(mid) as int;
        let x: int = shape[0] as int;
        let y: int = shape.last() as int;
        assert(x * (m * y) == (x * m) * y) by (nonlinear_arith);
        assert(volume(tail) == m * y);
        assert(types::extent_product(head) == x * m);
    }
}

/// What consuming the first wires of a list does.
proof fn lemma_consume_first(b: builder::BuilderModel, ws: Seq<Wire>, k: int)
    requires
        0 <= k <= ws.len(),
    ensures
        b.consume_first(ws, k).0.net == b.net,
        b.consume_first(ws, k).1 is None <==> {
            &&& forall|i: int| 0 <= i < k ==> !b.consumed.contains_key(#[trigger] ws[i])
            &&& forall|i: int, j: int| 0 <= i < j < k ==> #[trigger] ws[i] != #[trigger] ws[j]
        },
        b.consume_first(ws, k).1 is None ==> took(b, b.consume_first(ws, k).0, ws.take(k)),
        b.consume_first(ws, k).1 matches Some(e) ==> exists|i: int| #[trigger]
            stopped(b, b.consume_first(ws, k).0, ws, i, e) && i < k,
    decreases k,
{
    if k == 0 {
        assert(took(b, b, ws.take(0)));
    } else {
        lemma_consume_first(b, ws, k - 1);
        let (m, fault) = b.consume_first(ws, k - 1);
        if fault is None {
            let w: Wire = ws[k - 1];
            assert(m.consumed.contains_key(w) <==> b.consumed.contains_key(w) || ws.take(
                k - 1,
            ).contains(w));
            if m.consumed.contains_key(w) {
                if !b.consumed.contains_key(w) {
                    let i: int = choose|i: int|
                        0 <= i < ws.take(k - 1).len() && #[trigger] ws.take(k - 1)[i] == w;
                    assert(ws[i] == ws[k - 1]);
                    assert(m.consumed[ws.take(k - 1)[i]] == b.net.apps.len() as u32);
                } else {
                    assert(m.consumed[w] == b.consumed[w]);
                }
                assert(b.consume_first(ws, k).0 == m);
                assert(stopped(b, b.consume_first(ws, k).0, ws, k - 1, b.consume_first(ws, k).1->0));
            } else {
                let c: builder::BuilderModel = b.consume_first(ws, k).0;
                assert(c.consumed == m.consumed.insert(w, b.net.apps.len() as u32));
                assert(ws.take(k) =~= ws.take(k - 1).push(w));
                assert forall|i: int, j: int| 0 <= i < j < k implies #[trigger] ws[i]
                    != #[trigger] ws[j] by {
                    if j == k - 1 {
                        assert(ws.take(k - 1)[i] == ws[i]);
                        assert(ws.take(k - 1).contains(ws[i]));
                    }
                }
                assert forall|v: Wire| #[trigger]
                    c.consumed.contains_key(v) <==> b.consumed.contains_key(v) || ws.take(
                        k,
                    ).contains(v) by {
                    assert(m.consumed.contains_key(v) <==> b.consumed.contains_key(v) || ws.take(
                        k - 1,
                    ).contains(v));
                    if ws.take(k).contains(v) {
                        let i: int = choose|i: int|
                            0 <= i < ws.take(k).len() && #[trigger] ws.take(k)[i] == v;
                        if i < k - 1 {
                            assert(ws.take(k - 1)[i] == v);
                        }
                    }
                    if ws.take(k - 1).contains(v) {
                        let i: int = choose|i: int|
                            0 <= i < ws.take(k - 1).len() && #[trigger] ws.take(k - 1)[i] == v;
                        assert(ws.take(k)[i] == v);
                    }
                    assert(ws.take(k)[k - 1] == w);
                }
                assert forall|v: Wire|
                    b.consumed.contains_key(v) implies #[trigger] c.consumed[v]
                    == b.consumed[v] by {
                    assert(m.consumed[v] == b.consumed[v]);
                    assert(m.consumed.contains_key(v));
                }
                assert forall|i: int| 0 <= i < ws.take(k).len() implies c.consumed[#[trigger] ws.take(
                    k,
                )[i]] == b.net.apps.len() as u32 by {
                    if i < k - 1 {
                        assert(ws.take(k - 1)[i] == ws.take(k)[i]);
                        assert(m.consumed[ws.take(k - 1)[i]] == b.net.apps.len() as u32);
                    }
                }
                assert(took(b, c, ws.take(k)));
            }
        } else {
            let e: BuildFault = fault->0;
            let i: int = choose|i: int| #[trigger] stopped(b, m, ws, i, e) && i < k - 1;
            assert(b.consume_first(ws, k) == (m, Some(e)));
            assert(stopped(b, b.consume_first(ws, k).0, ws, i, e) && i < k);
        }
    }
}

/// Consuming a list stopped at place `i`: the wires in front of it are read now, and the
/// wire there was read before, by an earlier application or further to the front.
pub open spec fn stopped(
    b: builder::BuilderModel,
    c: builder::BuilderModel,
    ws: Seq<Wire>,
    i: int,
    e: BuildFault,
) -> bool {
    &&& 0 <= i < ws.len()
    &&& took(b, c, ws.take(i))
    &&& b.consumed.contains_key(ws[i]) || ws.take(i).contains(ws[i])
    &&& e == BuildFault::WireAlreadyConsumed {
        wire: ws[i],
        by_app: if b.consumed.contains_key(ws[i]) {
            b.consumed[ws[i]]
        } else {
            b.net.apps.len() as u32
        },
    }
}

/// Reading no wire changes nothing.
proof fn lemma_took_none(b: builder::BuilderModel, c: builder::BuilderModel)
    requires
        c.consumed == b.consumed,
    ensures
        took(b, c, Seq::empty()),
{
}

/// Reading one wire that nobody reads.
proof fn lemma_took_one(b: builder::BuilderModel, c: builder::BuilderModel, w: Wire)
    requires
        !b.consumed.contains_key(w),
        c.consumed == b.consumed.insert(w, b.net.apps.len() as u32),
    ensures
        took(b, c, seq![w]),
{
    assert(seq![w][0] == w);
    assert(seq![w].contains(w));
}

/// A graph input: the wire handed back is new, has the given type, and is the last wire of
/// the interface.
pub proof fn law_input_is_handed_back(b: builder::BuilderModel, t: types::TypeModel)
    requires
        b.net.wire_types.len() < 0x1_0000_0000,
    ensures
        ({
            let c = b.with_input(t);
            let w = b.fresh();
            &&& w == b.net.wire_types.len()
            &&& c.net.wire_types.len() == b.net.wire_types.len() + 1
            &&& c.net.wire_types[w as int] == t
            &&& forall|i: int|
                0 <= i < b.net.wire_types.len() ==> #[trigger] c.net.wire_types[i]
                    == b.net.wire_types[i]
            &&& c.net.graph_inputs == b.net.graph_inputs + seq![w]
            &&& c.net.apps == b.net.apps
            &&& c.net.complexes == b.net.complexes
            &&& c.net.graph_outputs == b.net.graph_outputs
            &&& c.consumed == b.consumed
        }),
{
}

/// A pooled complex: the index handed back names it. A complex with a defect is refused,
/// with all its defects and the index that it would have had.
pub proof fn law_complex_is_handed_back(b: builder::BuilderModel, x: simplex::ComplexModel)
    requires
        b.net.complexes.len() < 0x1_0000_0000,
    ensures
        match b.with_complex(x).1 {
            Ok(i) => {
                let c = b.with_complex(x).0;
                &&& x.violations().len() == 0
                &&& i == b.net.complexes.len()
                &&& c.net.complexes.len() == b.net.complexes.len() + 1
                &&& c.net.complexes[i as int] == x
                &&& forall|j: int|
                    0 <= j < b.net.complexes.len() ==> #[trigger] c.net.complexes[j]
                        == b.net.complexes[j]
                &&& c.net.apps == b.net.apps
                &&& c.net.wire_types == b.net.wire_types
                &&& c.net.graph_inputs == b.net.graph_inputs
                &&& c.net.graph_outputs == b.net.graph_outputs
                &&& c.consumed == b.consumed
            },
            Err(e) => {
                &&& x.violations().len() > 0
                &&& b.with_complex(x).0 == b
                &&& e matches BuildFault::InvalidComplex { complex_idx, violations }
                    && complex_idx == b.net.complexes.len() && violations == x.violations()
            },
        },
{
}

/// `constant`: the box appended last emits the payload on the wire handed back, which has
/// the given type. It is accepted exactly where the payload has as many entries as the
/// extents have products, counted in a word, and is rational exactly for the kind of
/// rationals.
pub proof fn law_constant_is_handed_back(
    b: builder::BuilderModel,
    t: types::TypeModel,
    value: app::PayloadModel,
)
    requires
        b.net.wire_types.len() < 0x1_0000_0000,
    ensures
        match b.constant(t, value).1 {
            Ok(w) => appended(
                b,
                b.constant(t, value).0,
                app::AppModel::Const { out: w, value },
                Seq::empty(),
                seq![w],
                seq![t],
            ),
            Err(e) => b.constant(t, value).0 == b && e is Typing,
        },
        b.constant(t, value).1 is Ok <==> match value {
            app::PayloadModel::Rat(qs) => t.dtype.kind is Rat && qs.len() == volume(t.shape)
                % 0x1_0000_0000_0000_0000,
            app::PayloadModel::Bits(bits) => !(t.dtype.kind is Rat) && bits.len() == volume(t.shape)
                % 0x1_0000_0000_0000_0000,
        },
        b.constant(t, value).1 matches Err(BuildFault::Typing(f)) ==> match f {
            faults::TypeFault::ConstPayloadSize { expected, got } => {
                &&& expected == volume(t.shape) % 0x1_0000_0000_0000_0000
                &&& value.len() != expected
                &&& got == value.len() as u64
            },
            faults::TypeFault::ConstPayloadKind { kind, rational_payload } => {
                &&& kind == t.dtype.kind
                &&& rational_payload == (value is Rat)
                &&& (kind is Rat) != rational_payload
            },
            _ => false,
        },
{
    lemma_volume(t.shape);
    let c: builder::BuilderModel = b.constant(t, value).0;
    if b.constant(t, value).1 is Ok {
        lemma_took_none(b, c);
        let w: Wire = b.constant(t, value).1->Ok_0;
        assert(seq![w][0] == w && seq![t][0] == t);
        assert(appended(
            b,
            c,
            app::AppModel::Const { out: w, value },
            Seq::empty(),
            seq![w],
            seq![t],
        ));
    }
}

/// `cast`: the box appended last reads the given wire and writes the wire handed back,
/// which has the new element type and the old shape.
pub proof fn law_cast_is_handed_back(b: builder::BuilderModel, inp: Wire, to: Dtype)
    requires
        b.net.wire_types.len() < 0x1_0000_0000,
    ensures
        match b.cast(inp, to).1 {
            Ok(w) => appended(
                b,
                b.cast(inp, to).0,
                app::AppModel::Cast { inp, out: w },
                seq![inp],
                seq![w],
                seq![
                    types::TypeModel {
                        dtype: to,
                        shape: b.net.wire_types[inp as int].shape,
                    },
                ],
            ),
            Err(e) => b.cast(inp, to).0 == b && unreadable(b, inp, e),
        },
        b.cast(inp, to).1 is Ok <==> free(b, inp),
{
    lemma_unary(b, inp);
}

/// A wire cannot be read, and `e` says why: it has no type, or somebody reads it.
pub open spec fn unreadable(b: builder::BuilderModel, w: Wire, e: BuildFault) -> bool {
    if w >= b.net.wire_types.len() {
        e == BuildFault::UnknownWire { wire: w }
    } else {
        &&& b.consumed.contains_key(w)
        &&& e == BuildFault::WireAlreadyConsumed { wire: w, by_app: b.consumed[w] }
    }
}

/// What a box with one input and one output does to the builder.
proof fn lemma_unary(b: builder::BuilderModel, inp: Wire)
    requires
        b.net.wire_types.len() < 0x1_0000_0000,
    ensures
        b.net.knows(inp) ==> forall|t: types::TypeModel, a: app::AppModel|
            ({
                let (c, r) = #[trigger] b.unary(inp, t, a);
                &&& r is Ok <==> free(b, inp)
                &&& r matches Ok(w) ==> (a.reads() == seq![inp] && a.writes() == seq![w]
                    ==> appended(b, c, a, seq![inp], seq![w], seq![t]))
                &&& r matches Err(e) ==> c == b && unreadable(b, inp, e)
            }),
{
    if b.net.knows(inp) {
        assert forall|t: types::TypeModel, a: app::AppModel|
            ({
                let (c, r) = #[trigger] b.unary(inp, t, a);
                &&& r is Ok <==> free(b, inp)
                &&& r matches Ok(w) ==> (a.reads() == seq![inp] && a.writes() == seq![w]
                    ==> appended(b, c, a, seq![inp], seq![w], seq![t]))
                &&& r matches Err(e) ==> c == b && unreadable(b, inp, e)
            }) by {
            let (c, r) = b.unary(inp, t, a);
            if r is Ok {
                lemma_took_one(b, c, inp);
                assert(seq![inp][0] == inp && seq![r->Ok_0][0] == r->Ok_0 && seq![t][0] == t);
            }
        }
    }
}

/// Two shapes differ in their number of entries, counted in a word, and `e` says so.
pub open spec fn resized(src: Seq<u64>, dst: Seq<u64>, e: BuildFault) -> bool {
    &&& e matches BuildFault::Typing(faults::TypeFault::ReshapeSize { from_size, to_size })
    &&& from_size == volume(src) % 0x1_0000_0000_0000_0000
    &&& to_size == volume(dst) % 0x1_0000_0000_0000_0000
    &&& from_size != to_size
}

/// `reshape`: the box appended last reads the given wire and writes the wire handed back,
/// which has the old element type and the new shape. It is accepted exactly where the
/// wire can be read and the two shapes have the same number of entries, counted in a word.
pub proof fn law_reshape_is_handed_back(
    b: builder::BuilderModel,
    inp: Wire,
    new_shape: Seq<u64>,
)
    requires
        b.net.wire_types.len() < 0x1_0000_0000,
    ensures
        match b.reshape(inp, new_shape).1 {
            Ok(w) => appended(
                b,
                b.reshape(inp, new_shape).0,
                app::AppModel::Reshape { new_shape, inp, out: w },
                seq![inp],
                seq![w],
                seq![
                    types::TypeModel {
                        dtype: b.net.wire_types[inp as int].dtype,
                        shape: new_shape,
                    },
                ],
            ),
            Err(e) => b.reshape(inp, new_shape).0 == b && (unreadable(b, inp, e) || (inp
                < b.net.wire_types.len() && resized(
                b.net.wire_types[inp as int].shape,
                new_shape,
                e,
            ))),
        },
        b.reshape(inp, new_shape).1 is Ok <==> free(b, inp) && volume(
            b.net.wire_types[inp as int].shape,
        ) % 0x1_0000_0000_0000_0000 == volume(new_shape) % 0x1_0000_0000_0000_0000,
{
    lemma_unary(b, inp);
    lemma_volume(new_shape);
    lemma_volume(b.net.wire_types[inp as int].shape);
}

/// Every axis of `src` stands over the axis of `dst` that is as far from the end, and has
/// its extent, or the extent one.
pub open spec fn stretches(src: Seq<u64>, dst: Seq<u64>) -> bool {
    &&& src.len() <= dst.len()
    &&& forall|k: int|
        1 <= k <= src.len() ==> #[trigger] src[src.len() - k] == 1 || src[src.len() - k]
            == dst[dst.len() - k]
}

/// Stretching is what a broadcast asks of its shapes.
pub proof fn lemma_stretches(src: Seq<u64>, dst: Seq<u64>)
    ensures
        types::broadcasts(src, dst) <==> stretches(src, dst),
{
    if types::broadcasts(src, dst) {
        assert forall|k: int| 1 <= k <= src.len() implies #[trigger] src[src.len() - k] == 1
            || src[src.len() - k] == dst[dst.len() - k] by {
            let i: int = src.len() - k;
            assert(src[i] == dst[dst.len() - src.len() + i] || src[i] == 1);
        }
    }
    if stretches(src, dst) {
        assert forall|i: int| 0 <= i < src.len() implies #[trigger] src[i] == dst[dst.len()
            - src.len() + i] || src[i] == 1 by {
            let k: int = src.len() - i;
            assert(src[src.len() - k] == 1 || src[src.len() - k] == dst[dst.len() - k]);
        }
    }
}

/// `broadcast`: the box appended last reads the given wire and writes the wire handed back,
/// which has the old element type and the new shape. It is accepted exactly where the wire
/// can be read and its shape only stretches to the new one.
pub proof fn law_broadcast_is_handed_back(
    b: builder::BuilderModel,
    inp: Wire,
    to_shape: Seq<u64>,
)
    requires
        b.net.wire_types.len() < 0x1_0000_0000,
    ensures
        match b.broadcast_to(inp, to_shape).1 {
            Ok(w) => appended(
                b,
                b.broadcast_to(inp, to_shape).0,
                app::AppModel::Broadcast { to_shape, inp, out: w },
                seq![inp],
                seq![w],
                seq![
                    types::TypeModel {
                        dtype: b.net.wire_types[inp as int].dtype,
                        shape: to_shape,
                    },
                ],
            ),
            Err(e) => b.broadcast_to(inp, to_shape).0 == b && (unreadable(b, inp, e) || (inp
                < b.net.wire_types.len() && !stretches(
                b.net.wire_types[inp as int].shape,
                to_shape,
            ) && e == BuildFault::Typing(
                faults::TypeFault::BroadcastShape {
                    from: b.net.wire_types[inp as int].shape,
                    to: to_shape,
                },
            ))),
        },
        b.broadcast_to(inp, to_shape).1 is Ok <==> free(b, inp) && stretches(
            b.net.wire_types[inp as int].shape,
            to_shape,
        ),
{
    lemma_unary(b, inp);
    lemma_stretches(b.net.wire_types[inp as int].shape, to_shape);
}

/// `delete`: the box appended last reads the given wire and writes nothing.
pub proof fn law_delete_is_appended(b: builder::BuilderModel, inp: Wire)
    ensures
        match b.delete(inp).1 {
            Ok(_) => appended(
                b,
                b.delete(inp).0,
                app::AppModel::Delete { inp },
                seq![inp],
                Seq::empty(),
                Seq::empty(),
            ),
            Err(e) => b.delete(inp).0 == b && unreadable(b, inp, e),
        },
        b.delete(inp).1 is Ok <==> free(b, inp),
{
    if b.delete(inp).1 is Ok {
        lemma_took_one(b, b.delete(inp).0, inp);
        assert(seq![inp][0] == inp);
    }
}

/// `swap`: where it succeeds, the box appended last exchanges the two given wires; its first
/// output is the first wire handed back and has the type of the second input, its second
/// output is the second wire handed back and has the type of the first input. It succeeds
/// exactly where both wires can be read and are two.
pub proof fn law_swap_is_handed_back(b: builder::BuilderModel, in1: Wire, in2: Wire)
    requires
        b.net.wire_types.len() + 1 < 0x1_0000_0000,
    ensures
        match b.swap(in1, in2).1 {
            Ok((p, q)) => {
                let c = b.swap(in1, in2).0;
                &&& appended(
                    b,
                    c,
                    app::AppModel::Swap { in1, in2, out1: p, out2: q },
                    seq![in1, in2],
                    seq![p, q],
                    seq![b.net.wire_types[in2 as int], b.net.wire_types[in1 as int]],
                )
                &&& c.net.wire_types[p as int] == b.net.wire_types[in2 as int]
                &&& c.net.wire_types[q as int] == b.net.wire_types[in1 as int]
            },
            Err(e) => untouched(b, b.swap(in1, in2).0),
        },
        b.swap(in1, in2).1 is Ok <==> free(b, in1) && free(b, in2) && in1 != in2,
        b.swap(in1, in2).1 matches Err(e) ==> if in1 < b.net.wire_types.len() && in2
            < b.net.wire_types.len() {
            ||| stopped(b, b.swap(in1, in2).0, seq![in1, in2], 0, e)
            ||| stopped(b, b.swap(in1, in2).0, seq![in1, in2], 1, e)
        } else {
            &&& b.swap(in1, in2).0 == b
            &&& e == (BuildFault::UnknownWire {
                wire: if in1 < b.net.wire_types.len() {
                    in2
                } else {
                    in1
                },
            })
        },
{
    let ws: Seq<Wire> = seq![in1, in2];
    let c: builder::BuilderModel = b.swap(in1, in2).0;
    assert(ws[0] == in1 && ws[1] == in2);
    if b.net.knows(in1) && b.net.knows(in2) {
        lemma_consume_first(b, ws, 2);
        lemma_pair_consumed(b, ws);
        match b.swap(in1, in2).1 {
            Ok((p, q)) => {
                let d: builder::BuilderModel = b.consume_first(ws, 2).0;
                assert(ws.take(2) =~= ws);
                assert(took(b, d, ws));
                assert(c.consumed == d.consumed);
                assert(took(b, c, ws)) by {
                    assert forall|i: int| 0 <= i < ws.len() implies c.consumed[#[trigger] ws[i]]
                        == b.net.apps.len() as u32 by {
                        assert(d.consumed[ws[i]] == b.net.apps.len() as u32);
                    }
                    assert forall|w: Wire| #[trigger]
                        c.consumed.contains_key(w) <==> b.consumed.contains_key(w) || ws.contains(
                            w,
                        ) by {
                        assert(d.consumed.contains_key(w) <==> b.consumed.contains_key(w)
                            || ws.contains(w));
                    }
                    assert forall|w: Wire|
                        b.consumed.contains_key(w) implies #[trigger] c.consumed[w]
                        == b.consumed[w] by {
                        assert(d.consumed[w] == b.consumed[w]);
                    }
                }
                assert(seq![p, q][0] == p && seq![p, q][1] == q);
                assert(ws[0] != ws[1]);
            },
            Err(e) => {
                let i: int = choose|i: int| #[trigger]
                    stopped(b, b.consume_first(ws, 2).0, ws, i, e) && i < 2;
                assert(stopped(b, c, ws, i, e));
            },
        }
        if in1 == in2 {
            assert(!(ws[0] != ws[1]));
        }
    }
}

/// Consuming a list of two, step by step.
proof fn lemma_pair_consumed(b: builder::BuilderModel, ws: Seq<Wire>)
    requires
        ws.len() == 2,
    ensures
        b.consume_first(ws, 2) == match b.consume(ws[0]) {
            Err(e) => (b, Some(e)),
            Ok(m) => match m.consume(ws[1]) {
                Err(e) => (m, Some(e)),
                Ok(c) => (c, None),
            },
        },
{
    reveal_with_fuel(builder::BuilderModel::consume_first, 3);
}

/// `copy`: the box appended last reads the given wire and writes as many wires as asked
/// for, the wires handed back; each has the type of the input. It is accepted exactly
/// where at least one branch is asked for and the wire can be read.
pub proof fn law_copy_is_handed_back(b: builder::BuilderModel, inp: Wire, k: u32)
    requires
        b.net.wire_types.len() + k <= 0x1_0000_0000,
    ensures
        match b.copy(inp, k).1 {
            Ok(outs) => {
                &&& outs.len() == k
                &&& appended(
                    b,
                    b.copy(inp, k).0,
                    app::AppModel::Copy { inp, outs },
                    seq![inp],
                    outs,
                    Seq::new(k as nat, |i: int| b.net.wire_types[inp as int]),
                )
            },
            Err(e) => b.copy(inp, k).0 == b && if k == 0 {
                e == BuildFault::CopyNoBranches
            } else {
                unreadable(b, inp, e)
            },
        },
        b.copy(inp, k).1 is Ok <==> k > 0 && free(b, inp),
{
    if b.copy(inp, k).1 is Ok {
        lemma_took_one(b, b.copy(inp, k).0, inp);
        assert(seq![inp][0] == inp);
    }
}

/// `cell`: the box appended last reads the given wire and writes one wire for each cell of
/// the complex, the wires handed back; each is a boolean scalar. It is accepted exactly
/// where the complex exists, the wire can be read, and it is a vector of rationals with one
/// entry for each ambient dimension.
pub proof fn law_cell_is_handed_back(b: builder::BuilderModel, complex_idx: u32, inp: Wire)
    requires
        complex_idx < b.net.complexes.len() ==> b.net.wire_types.len()
            + b.net.complexes[complex_idx as int].cells.len() <= 0x1_0000_0000,
        b.net.complexes.len() <= 0xffff_ffff,
    ensures
        match b.cell(complex_idx, inp).1 {
            Ok(outs) => {
                &&& outs.len() == b.net.complexes[complex_idx as int].cells.len()
                &&& appended(
                    b,
                    b.cell(complex_idx, inp).0,
                    app::AppModel::Cell { complex_idx, inp, outs },
                    seq![inp],
                    outs,
                    Seq::new(
                        outs.len(),
                        |i: int|
                            types::TypeModel {
                                dtype: Dtype {
                                    kind: Kind::Bool,
                                    sign: Sign::NonNeg,
                                    ext: Ext::Fin,
                                },
                                shape: Seq::empty(),
                            },
                    ),
                )
            },
            Err(e) => b.cell(complex_idx, inp).0 == b && if complex_idx
                >= b.net.complexes.len() {
                e == (BuildFault::ComplexIndexOutOfRange {
                    complex_idx,
                    pool_len: b.net.complexes.len() as u32,
                })
            } else {
                unreadable(b, inp, e) || (inp < b.net.wire_types.len() && e
                    == BuildFault::Typing(
                    faults::TypeFault::CellInputType {
                        amb_dim: b.net.complexes[complex_idx as int].amb_dim,
                        got: b.net.wire_types[inp as int],
                    },
                ))
            },
        },
        b.cell(complex_idx, inp).1 is Ok <==> {
            &&& complex_idx < b.net.complexes.len()
            &&& free(b, inp)
            &&& b.net.wire_types[inp as int].dtype.kind is Rat
            &&& b.net.wire_types[inp as int].shape.len() == 1
            &&& b.net.wire_types[inp as int].shape[0]
                == b.net.complexes[complex_idx as int].amb_dim
        },
{
    if complex_idx < b.net.complexes.len() && b.net.knows(inp) {
        let d: u32 = b.net.complexes[complex_idx as int].amb_dim;
        let shape: Seq<u64> = b.net.wire_types[inp as int].shape;
        if shape.len() == 1 && shape[0] == d {
            assert(shape =~= seq![d as u64]);
        }
        assert(seq![d as u64][0] == d);
    }
    if b.cell(complex_idx, inp).1 is Ok {
        lemma_took_one(b, b.cell(complex_idx, inp).0, inp);
        assert(seq![inp][0] == inp);
    }
}

/// The axes of a shape have the extents of the index variables that they are bound to.
pub open spec fn axes_bound(shape: Seq<u64>, extents: Seq<u64>, bnd: Seq<u32>) -> bool {
    &&& shape.len() == bnd.len()
    &&& forall|i: int|
        0 <= i < bnd.len() ==> {
            &&& (#[trigger] bnd[i]) < extents.len()
            &&& shape[i] == extents[bnd[i] as int]
        }
}

/// No axis is at fault exactly where all axes are bound.
proof fn lemma_axis_fault(shape: Seq<u64>, extents: Seq<u64>, bnd: Seq<u32>, k: int, n: int)
    requires
        0 <= n <= bnd.len(),
    ensures
        builder::BuilderModel::axis_fault(shape, extents, bnd, k, n) is None <==> forall|i: int|
            0 <= i < n ==> {
                &&& (#[trigger] bnd[i]) < extents.len()
                &&& shape[i] == extents[bnd[i] as int]
            },
        builder::BuilderModel::axis_fault(shape, extents, bnd, k, n) matches Some(e) ==> e is Typing,
    decreases n,
{
    if n > 0 {
        lemma_axis_fault(shape, extents, bnd, k, n - 1);
        if builder::BuilderModel::axis_fault(shape, extents, bnd, k, n) is Some {
            if builder::BuilderModel::axis_fault(shape, extents, bnd, k, n - 1) is None {
                assert(!(bnd[n - 1] < extents.len() && shape[n - 1] == extents[bnd[n - 1] as int]));
            }
        }
    }
}

/// Input `k` of a contraction has a type with the element type `dtype` and bound axes.
pub open spec fn input_bound(
    b: builder::BuilderModel,
    dtype: Dtype,
    w: Wire,
    extents: Seq<u64>,
    bnd: Seq<u32>,
) -> bool {
    &&& w < b.net.wire_types.len()
    &&& b.net.wire_types[w as int].dtype == dtype
    &&& axes_bound(b.net.wire_types[w as int].shape, extents, bnd)
}

/// No input is at fault exactly where all inputs are bound.
proof fn lemma_inputs_fault(
    b: builder::BuilderModel,
    dtype: Dtype,
    inputs: Seq<Wire>,
    extents: Seq<u64>,
    in_bindings: Seq<Seq<u32>>,
    n: int,
)
    requires
        0 <= n <= inputs.len(),
        inputs.len() == in_bindings.len(),
    ensures
        b.inputs_fault(dtype, inputs, extents, in_bindings, n) is None <==> forall|k: int|
            0 <= k < n ==> input_bound(b, dtype, #[trigger] inputs[k], extents, in_bindings[k]),
    decreases n,
{
    if n > 0 {
        lemma_inputs_fault(b, dtype, inputs, extents, in_bindings, n - 1);
        let bnd: Seq<u32> = in_bindings[n - 1];
        let w: Wire = inputs[n - 1];
        if b.net.knows(w) {
            lemma_axis_fault(
                b.net.wire_types[w as int].shape,
                extents,
                bnd,
                n - 1,
                bnd.len() as int,
            );
        }
        assert(b.input_fault(dtype, w, extents, bnd, n - 1) is None <==> input_bound(
            b,
            dtype,
            inputs[n - 1],
            extents,
            in_bindings[n - 1],
        ));
    }
}

/// No output axis is at fault exactly where each is bound to an index variable.
proof fn lemma_output_fault(extents: Seq<u64>, bnd: Seq<u32>, n: int)
    requires
        0 <= n <= bnd.len(),
    ensures
        builder::BuilderModel::output_fault(extents, bnd, n) is None <==> forall|i: int|
            0 <= i < n ==> (#[trigger] bnd[i]) < extents.len(),
    decreases n,
{
    if n > 0 {
        lemma_output_fault(extents, bnd, n - 1);
        if builder::BuilderModel::output_fault(extents, bnd, n) is Some {
            if builder::BuilderModel::output_fault(extents, bnd, n - 1) is None {
                assert(!(bnd[n - 1] < extents.len()));
            }
        }
    }
}

/// `contract`: the box appended last reads the given wires and writes the wire handed back,
/// which has the inputs' element type and, axis by axis, the extent of the index variable
/// that the axis is bound to. It is accepted exactly where there are inputs, as many as
/// bindings, all of one element type, every axis of every input has the extent of its index
/// variable, the output names index variables only, and the inputs can be read and are
/// different wires.
pub proof fn law_contract_is_handed_back(
    b: builder::BuilderModel,
    inputs: Seq<Wire>,
    extents: Seq<u64>,
    in_bindings: Seq<Seq<u32>>,
    out_binding: Seq<u32>,
)
    requires
        b.net.wire_types.len() < 0x1_0000_0000,
    ensures
        ({
            let (c, r) = b.contract(inputs, extents, in_bindings, out_binding);
            let dtype = b.net.wire_types[inputs[0] as int].dtype;
            &&& r matches Ok(w) ==> appended(
                b,
                c,
                app::AppModel::Contract {
                    inputs,
                    output: w,
                    extents,
                    in_bindings,
                    out_binding,
                },
                inputs,
                seq![w],
                seq![c.net.wire_types[w as int]],
            ) && c.net.wire_types[w as int].dtype == dtype && axes_bound(
                c.net.wire_types[w as int].shape,
                extents,
                out_binding,
            )
            &&& r is Err ==> untouched(b, c)
            &&& r is Ok <==> {
                &&& inputs.len() > 0
                &&& inputs.len() == in_bindings.len()
                &&& forall|k: int|
                    0 <= k < inputs.len() ==> input_bound(
                        b,
                        dtype,
                        #[trigger] inputs[k],
                        extents,
                        in_bindings[k],
                    )
                &&& forall|i: int|
                    0 <= i < out_binding.len() ==> (#[trigger] out_binding[i]) < extents.len()
                &&& all_free(b, inputs)
            }
        }),
{
    let n: int = inputs.len() as int;
    let (c, r) = b.contract(inputs, extents, in_bindings, out_binding);
    if n > 0 && n == in_bindings.len() {
        let dtype: Dtype = b.net.wire_types[inputs[0] as int].dtype;
        lemma_inputs_fault(b, dtype, inputs, extents, in_bindings, n);
        lemma_output_fault(extents, out_binding, out_binding.len() as int);
        lemma_consume_first(b, inputs, n);
        assert(inputs.take(n) =~= inputs);
        if r is Ok {
            let d: builder::BuilderModel = b.consume_first(inputs, n).0;
            lemma_took_same(b, d, c, inputs);
            let w: Wire = r->Ok_0;
            assert(seq![w][0] == w);
            assert(seq![c.net.wire_types[w as int]][0] == c.net.wire_types[w as int]);
            assert forall|i: int| 0 <= i < inputs.len() implies free(b, #[trigger] inputs[i]) by {
                assert(input_bound(b, dtype, inputs[i], extents, in_bindings[i]));
            }
        } else if all_free(b, inputs) {
            assert forall|i: int| 0 <= i < n implies !b.consumed.contains_key(
                #[trigger] inputs[i],
            ) by {
                assert(free(b, inputs[i]));
            }
        }
        if !b.net.knows(inputs[0]) {
            assert(!input_bound(b, dtype, inputs[0], extents, in_bindings[0]));
        }
    }
}

/// What was read stays read while the graph grows.
proof fn lemma_took_same(
    b: builder::BuilderModel,
    d: builder::BuilderModel,
    c: builder::BuilderModel,
    ws: Seq<Wire>,
)
    requires
        took(b, d, ws),
        c.consumed == d.consumed,
    ensures
        took(b, c, ws),
{
    assert forall|i: int| 0 <= i < ws.len() implies c.consumed[#[trigger] ws[i]]
        == b.net.apps.len() as u32 by {
        assert(d.consumed[ws[i]] == b.net.apps.len() as u32);
    }
    assert forall|w: Wire| #[trigger]
        c.consumed.contains_key(w) <==> b.consumed.contains_key(w) || ws.contains(w) by {
        assert(d.consumed.contains_key(w) <==> b.consumed.contains_key(w) || ws.contains(w));
    }
    assert forall|w: Wire| b.consumed.contains_key(w) implies #[trigger] c.consumed[w]
        == b.consumed[w] by {
        assert(d.consumed[w] == b.consumed[w]);
    }
}

/// No input is at fault exactly where all inputs have the type of the first.
proof fn lemma_stack_fault(
    b: builder::BuilderModel,
    t: types::TypeModel,
    inputs: Seq<Wire>,
    n: int,
)
    requires
        0 <= n <= inputs.len(),
    ensures
        b.stack_fault(t, inputs, n) is None <==> forall|i: int|
            1 <= i < n ==> {
                &&& (#[trigger] inputs[i]) < b.net.wire_types.len()
                &&& b.net.wire_types[inputs[i] as int] == t
            },
    decreases n,
{
    if n > 1 {
        lemma_stack_fault(b, t, inputs, n - 1);
        if b.stack_fault(t, inputs, n) is Some && b.stack_fault(t, inputs, n - 1) is None {
            assert(!(inputs[n - 1] < b.net.wire_types.len() && b.net.wire_types[inputs[n - 1] as int]
                == t));
        }
    }
}

/// `stack`: the box appended last reads the given wires and writes the wire handed back,
/// which has the inputs' element type and one axis more than they, in front, as long as
/// there are inputs. It is accepted exactly where there are inputs, all of one type, and
/// they can be read and are different wires.
pub proof fn law_stack_is_handed_back(b: builder::BuilderModel, inputs: Seq<Wire>)
    requires
        b.net.wire_types.len() < 0x1_0000_0000,
        inputs.len() <= u64::MAX,
    ensures
        ({
            let (c, r) = b.stack(inputs);
            let t = b.net.wire_types[inputs[0] as int];
            &&& r matches Ok(w) ==> appended(
                b,
                c,
                app::AppModel::Stack { inputs, output: w },
                inputs,
                seq![w],
                seq![c.net.wire_types[w as int]],
            ) && c.net.wire_types[w as int].dtype == t.dtype
                && c.net.wire_types[w as int].shape.len() == t.shape.len() + 1
                && c.net.wire_types[w as int].shape[0] == inputs.len() && forall|i: int|
                0 <= i < t.shape.len() ==> #[trigger] t.shape[i]
                    == c.net.wire_types[w as int].shape[i + 1]
            &&& r is Err ==> untouched(b, c)
            &&& r is Ok <==> {
                &&& inputs.len() > 0
                &&& forall|i: int|
                    0 <= i < inputs.len() ==> b.net.wire_types[#[trigger] inputs[i] as int] == t
                &&& all_free(b, inputs)
            }
        }),
{
    let n: int = inputs.len() as int;
    let (c, r) = b.stack(inputs);
    if n > 0 {
        let t: types::TypeModel = b.net.wire_types[inputs[0] as int];
        lemma_stack_fault(b, t, inputs, n);
        lemma_consume_first(b, inputs, n);
        assert(inputs.take(n) =~= inputs);
        if r is Ok {
            let d: builder::BuilderModel = b.consume_first(inputs, n).0;
            lemma_took_same(b, d, c, inputs);
            let w: Wire = r->Ok_0;
            assert(seq![w][0] == w);
            assert(seq![c.net.wire_types[w as int]][0] == c.net.wire_types[w as int]);
            assert forall|i: int| 0 <= i < inputs.len() implies free(b, #[trigger] inputs[i]) by {
                if i > 0 {
                    assert(inputs[i] < b.net.wire_types.len());
                }
            }
        } else if all_free(b, inputs) {
            assert forall|i: int| 0 <= i < n implies !b.consumed.contains_key(
                #[trigger] inputs[i],
            ) by {
                assert(free(b, inputs[i]));
            }
            assert(free(b, inputs[0]));
            if forall|i: int|
                0 <= i < inputs.len() ==> b.net.wire_types[#[trigger] inputs[i] as int] == t {
                assert forall|i: int| 1 <= i < n implies {
                    &&& (#[trigger] inputs[i]) < b.net.wire_types.len()
                    &&& b.net.wire_types[inputs[i] as int] == t
                } by {
                    assert(free(b, inputs[i]));
                }
            }
        }
    }
}

/// No output is at fault exactly where all are free.
proof fn lemma_outputs_fault(b: builder::BuilderModel, outs: Seq<Wire>, n: int)
    requires
        0 <= n <= outs.len(),
    ensures
        b.outputs_fault(outs, n) is None <==> forall|i: int|
            0 <= i < n ==> free(b, #[trigger] outs[i]),
        b.outputs_fault(outs, n) matches Some(e) ==> exists|i: int|
            0 <= i < n && #[trigger] output_refused(b, outs, i, e),
    decreases n,
{
    if n > 0 {
        lemma_outputs_fault(b, outs, n - 1);
        match b.outputs_fault(outs, n - 1) {
            Some(e) => {
                let i: int = choose|i: int|
                    0 <= i < n - 1 && #[trigger] output_refused(b, outs, i, e);
                assert(0 <= i < n && output_refused(b, outs, i, e));
            },
            None => {
                if b.outputs_fault(outs, n) is Some {
                    assert(!free(b, outs[n - 1]));
                    assert(output_refused(b, outs, n - 1, b.outputs_fault(outs, n)->0));
                }
            },
        }
    }
}

/// Output `i` is the first that is not free, and `e` says why it is not.
pub open spec fn output_refused(
    b: builder::BuilderModel,
    outs: Seq<Wire>,
    i: int,
    e: BuildFault,
) -> bool {
    &&& forall|j: int| 0 <= j < i ==> free(b, #[trigger] outs[j])
    &&& if outs[i] >= b.net.wire_types.len() {
        e == (BuildFault::UnknownWire { wire: outs[i] })
    } else {
        &&& b.consumed.contains_key(outs[i])
        &&& e == (BuildFault::OutputConsumed { wire: outs[i], by_app: b.consumed[outs[i]] })
    }
}

/// `finish`: the finished graph is the graph so far with the given wires as its outputs. It
/// is refused exactly where one of them cannot be read, the first such wire being named, or
/// where the graph has a fault.
pub proof fn law_finish_hands_back_the_graph(b: builder::BuilderModel, outs: Seq<Wire>)
    ensures
        match b.finish(outs) {
            Ok(net) => {
                &&& net.graph_outputs == outs
                &&& net.wire_types == b.net.wire_types
                &&& net.complexes == b.net.complexes
                &&& net.apps == b.net.apps
                &&& net.graph_inputs == b.net.graph_inputs
                &&& net.faults().len() == 0
                &&& forall|i: int| 0 <= i < outs.len() ==> free(b, #[trigger] outs[i])
            },
            Err(BuildFault::Preflight(fs)) => {
                &&& fs.len() > 0
                &&& forall|i: int| 0 <= i < outs.len() ==> free(b, #[trigger] outs[i])
            },
            Err(e) => exists|i: int| 0 <= i < outs.len() && #[trigger] output_refused(b, outs, i, e),
        },
{
    lemma_outputs_fault(b, outs, outs.len() as int);
}

} // verus!
