//! What the bytes of each box and of each section say, and where they stand in the bytes of
//! a graph.

use super::super::app;
use super::super::scalar;
use super::super::simplex;
use super::super::types;
use super::bytes;
use super::bytes::{lemma_split, spans};
use super::fields;
use super::fields::{
    bits_stand, dtype_stands, flags, list_stands, measurable, members, rationals_stand,
    shape_stands, word, words_stand,
};
use super::layout;
use super::order;
use vstd::prelude::*;

verus! {

/// Lists of indices stand one behind the other from `o` up to `end`, each behind its count.
pub open spec fn lists_stand(b: Seq<u8>, o: int, end: int, ls: Seq<Seq<u32>>) -> bool
    decreases ls.len(),
{
    if ls.len() == 0 {
        o == end
    } else {
        &&& list_stands(b, o, ls[0])
        &&& lists_stand(b, o + 4 + 4 * ls[0].len(), end, ls.drop_first())
    }
}

/// The header of an application stands at `o`: the number of the box, the exact rounding
/// mode, and two zero bytes.
pub open spec fn header_stands(b: Seq<u8>, o: int, a: app::AppModel) -> bool {
    &&& o + 4 <= b.len()
    &&& b[o] == match a {
        app::AppModel::Const { .. } => 0int,
        app::AppModel::Contract { .. } => 1,
        app::AppModel::Cast { .. } => 2,
        app::AppModel::Cell { .. } => 3,
        app::AppModel::Reshape { .. } => 4,
        app::AppModel::Broadcast { .. } => 5,
        app::AppModel::Copy { .. } => 6,
        app::AppModel::Delete { .. } => 7,
        app::AppModel::Swap { .. } => 8,
        app::AppModel::Stack { .. } => 9,
    }
    &&& b[o + 1] == 4
    &&& b[o + 2] == 0
    &&& b[o + 3] == 0
}

/// What follows the header of an application, from `o` up to `end`, field by field.
pub open spec fn body_stands(
    b: Seq<u8>,
    o: int,
    end: int,
    ts: Seq<types::TypeModel>,
    a: app::AppModel,
) -> bool {
    &&& o <= end <= b.len()
    &&& match a {
        app::AppModel::Const { out, value } => {
            &&& word(b, o) == out
            &&& match value {
                app::PayloadModel::Rat(qs) => rationals_stand(b, o + 4, end, qs),
                app::PayloadModel::Bits(bits) => {
                    &&& bits_stand(b, o + 4, bits.len() as int, flags(bits))
                    &&& end == o + 4 + (bits.len() + 7) / 8
                },
            }
        },
        app::AppModel::Contract { inputs, output, extents, in_bindings, out_binding } => {
            let p = o + 8 + 4 * inputs.len();
            let q = p + 8 + 8 * extents.len();
            let r = end - 4 - 4 * out_binding.len();
            &&& dtype_stands(b, o, ts[output as int].dtype)
            &&& list_stands(b, o + 4, inputs)
            &&& word(b, p) == output
            &&& shape_stands(b, p + 4, extents)
            &&& lists_stand(b, q, r, in_bindings)
            &&& list_stands(b, r, out_binding)
        },
        app::AppModel::Cast { inp, out } => {
            let p = o + 12 + 8 * ts[inp as int].shape.len();
            &&& dtype_stands(b, o, ts[inp as int].dtype)
            &&& dtype_stands(b, o + 4, ts[out as int].dtype)
            &&& shape_stands(b, o + 8, ts[inp as int].shape)
            &&& word(b, p) == inp
            &&& word(b, p + 4) == out
            &&& end == p + 8
        },
        app::AppModel::Cell { complex_idx, inp, outs } => {
            &&& word(b, o) == complex_idx
            &&& word(b, o + 4) == inp
            &&& list_stands(b, o + 8, outs)
            &&& end == o + 12 + 4 * outs.len()
        },
        app::AppModel::Reshape { new_shape, inp, out } => {
            &&& shape_stands(b, o, new_shape)
            &&& word(b, o + 4 + 8 * new_shape.len()) == inp
            &&& word(b, o + 8 + 8 * new_shape.len()) == out
            &&& end == o + 12 + 8 * new_shape.len()
        },
        app::AppModel::Broadcast { to_shape, inp, out } => {
            &&& shape_stands(b, o, to_shape)
            &&& word(b, o + 4 + 8 * to_shape.len()) == inp
            &&& word(b, o + 8 + 8 * to_shape.len()) == out
            &&& end == o + 12 + 8 * to_shape.len()
        },
        app::AppModel::Copy { inp, outs } => {
            &&& word(b, o) == outs.len()
            &&& word(b, o + 4) == inp
            &&& words_stand(b, o + 8, outs)
            &&& end == o + 8 + 4 * outs.len()
        },
        app::AppModel::Delete { inp } => {
            &&& word(b, o) == inp
            &&& end == o + 4
        },
        app::AppModel::Swap { in1, in2, out1, out2 } => {
            &&& word(b, o) == in1
            &&& word(b, o + 4) == in2
            &&& word(b, o + 8) == out1
            &&& word(b, o + 12) == out2
            &&& end == o + 16
        },
        app::AppModel::Stack { inputs, output } => {
            &&& list_stands(b, o, inputs)
            &&& word(b, o + 4 + 4 * inputs.len()) == output
            &&& end == o + 8 + 4 * inputs.len()
        },
    }
}

/// An application stands from `o` up to `end`.
pub open spec fn app_stands(
    b: Seq<u8>,
    o: int,
    end: int,
    ts: Seq<types::TypeModel>,
    a: app::AppModel,
) -> bool {
    &&& header_stands(b, o, a)
    &&& body_stands(b, o + 4, end, ts, a)
}

/// The counts of an application have room in their four bytes.
pub open spec fn app_measured(ts: Seq<types::TypeModel>, a: app::AppModel) -> bool {
    match a {
        app::AppModel::Const { value, .. } => match value {
            app::PayloadModel::Rat(qs) => forall|i: int|
                0 <= i < qs.len() ==> measurable(#[trigger] qs[i]),
            app::PayloadModel::Bits(bits) => bits.len() <= u32::MAX,
        },
        app::AppModel::Contract { inputs, extents, in_bindings, out_binding, .. } => {
            &&& inputs.len() <= u32::MAX
            &&& extents.len() <= u32::MAX
            &&& out_binding.len() <= u32::MAX
            &&& forall|i: int|
                0 <= i < in_bindings.len() ==> (#[trigger] in_bindings[i]).len() <= u32::MAX
        },
        app::AppModel::Cast { inp, .. } => ts[inp as int].shape.len() <= u32::MAX,
        app::AppModel::Cell { outs, .. } => outs.len() <= u32::MAX,
        app::AppModel::Reshape { new_shape, .. } => new_shape.len() <= u32::MAX,
        app::AppModel::Broadcast { to_shape, .. } => to_shape.len() <= u32::MAX,
        app::AppModel::Copy { outs, .. } => outs.len() <= u32::MAX,
        app::AppModel::Delete { .. } => true,
        app::AppModel::Swap { .. } => true,
        app::AppModel::Stack { inputs, .. } => inputs.len() <= u32::MAX,
    }
}

/// Two words, one behind the other.
proof fn lemma_pair(b: Seq<u8>, o: int, e: int, x: u32, y: u32)
    requires
        spans(b, o, e, layout::le32(x) + layout::le32(y)),
    ensures
        e == o + 8,
        word(b, o) == x,
        word(b, o + 4) == y,
{
    bytes::lemma_le(x as nat, 4);
    lemma_split(b, o, e, layout::le32(x), layout::le32(y));
    fields::lemma_word(b, o, o + 4, x);
    fields::lemma_word(b, o + 4, e, y);
}

/// Lists one behind the other.
proof fn lemma_lists(b: Seq<u8>, o: int, e: int, ls: Seq<Seq<u32>>)
    requires
        spans(b, o, e, layout::spell_bindings(ls)),
        forall|i: int| 0 <= i < ls.len() ==> (#[trigger] ls[i]).len() <= u32::MAX,
    ensures
        lists_stand(b, o, e, ls),
    decreases ls.len(),
{
    if ls.len() > 0 {
        let f = |l: Seq<u32>| layout::spell_counted(l);
        let rest: Seq<Seq<u32>> = ls.drop_first();
        fields::lemma_spell_first(f, ls);
        let s: Seq<u8> = layout::spell_counted(ls[0]);
        lemma_split(b, o, e, s, layout::spell_bindings(rest));
        fields::lemma_list(b, o, o + s.len(), ls[0]);
        assert forall|i: int| 0 <= i < rest.len() implies (#[trigger] rest[i]).len() <= u32::MAX by {
            assert(rest[i] == ls[i + 1]);
        }
        lemma_lists(b, o + s.len(), e, rest);
    } else {
        assert(b.subrange(o, e).len() == 0);
    }
}

/// A contraction.
proof fn lemma_contract(b: Seq<u8>, o: int, e: int, ts: Seq<types::TypeModel>, a: app::AppModel)
    requires
        a is Contract,
        spans(b, o, e, layout::spell_body(ts, a)),
        app_measured(ts, a),
    ensures
        body_stands(b, o, e, ts, a),
{
    if let app::AppModel::Contract { inputs, output, extents, in_bindings, out_binding } = a {
        let s0: Seq<u8> = layout::spell_dtype(ts[output as int].dtype);
        let s1: Seq<u8> = layout::spell_counted(inputs);
        let s2: Seq<u8> = layout::le32(output);
        let s3: Seq<u8> = layout::spell_shape(extents);
        let s4: Seq<u8> = layout::spell_bindings(in_bindings);
        let s5: Seq<u8> = layout::spell_counted(out_binding);
        let o1: int = o + s0.len();
        let o2: int = o1 + s1.len();
        let o3: int = o2 + s2.len();
        let o4: int = o3 + s3.len();
        let o5: int = o4 + s4.len();
        lemma_split(b, o, e, s0 + s1 + s2 + s3 + s4, s5);
        lemma_split(b, o, o5, s0 + s1 + s2 + s3, s4);
        lemma_split(b, o, o4, s0 + s1 + s2, s3);
        lemma_split(b, o, o3, s0 + s1, s2);
        lemma_split(b, o, o2, s0, s1);
        fields::lemma_dtype(b, o, o1, ts[output as int].dtype);
        fields::lemma_list(b, o1, o2, inputs);
        fields::lemma_word(b, o2, o3, output);
        fields::lemma_shape(b, o3, o4, extents);
        lemma_lists(b, o4, o5, in_bindings);
        fields::lemma_list(b, o5, e, out_binding);
    }
}

/// A cast.
proof fn lemma_cast(b: Seq<u8>, o: int, e: int, ts: Seq<types::TypeModel>, a: app::AppModel)
    requires
        a is Cast,
        spans(b, o, e, layout::spell_body(ts, a)),
        app_measured(ts, a),
    ensures
        body_stands(b, o, e, ts, a),
{
    if let app::AppModel::Cast { inp, out } = a {
        let s0: Seq<u8> = layout::spell_dtype(ts[inp as int].dtype);
        let s1: Seq<u8> = layout::spell_dtype(ts[out as int].dtype);
        let s2: Seq<u8> = layout::spell_shape(ts[inp as int].shape);
        let s3: Seq<u8> = layout::le32(inp);
        let s4: Seq<u8> = layout::le32(out);
        let o1: int = o + s0.len();
        let o2: int = o1 + s1.len();
        let o3: int = o2 + s2.len();
        let o4: int = o3 + s3.len();
        lemma_split(b, o, e, s0 + s1 + s2 + s3, s4);
        lemma_split(b, o, o4, s0 + s1 + s2, s3);
        lemma_split(b, o, o3, s0 + s1, s2);
        lemma_split(b, o, o2, s0, s1);
        fields::lemma_dtype(b, o, o1, ts[inp as int].dtype);
        fields::lemma_dtype(b, o1, o2, ts[out as int].dtype);
        fields::lemma_shape(b, o2, o3, ts[inp as int].shape);
        fields::lemma_word(b, o3, o4, inp);
        fields::lemma_word(b, o4, e, out);
    }
}

/// A shape and two wires.
proof fn lemma_shaped(b: Seq<u8>, o: int, e: int, s: Seq<u64>, x: u32, y: u32)
    requires
        spans(b, o, e, layout::spell_shape(s) + layout::le32(x) + layout::le32(y)),
        s.len() <= u32::MAX,
    ensures
        shape_stands(b, o, s),
        word(b, o + 4 + 8 * s.len()) == x,
        word(b, o + 8 + 8 * s.len()) == y,
        e == o + 12 + 8 * s.len(),
{
    let s0: Seq<u8> = layout::spell_shape(s);
    bytes::lemma_le(x as nat, 4);
    lemma_split(b, o, e, s0 + layout::le32(x), layout::le32(y));
    lemma_split(b, o, o + s0.len() + 4, s0, layout::le32(x));
    fields::lemma_shape(b, o, o + s0.len(), s);
    fields::lemma_word(b, o + s0.len(), o + s0.len() + 4, x);
    fields::lemma_word(b, o + s0.len() + 4, e, y);
}

/// A literal.
proof fn lemma_const(b: Seq<u8>, o: int, e: int, ts: Seq<types::TypeModel>, a: app::AppModel)
    requires
        a is Const,
        spans(b, o, e, layout::spell_body(ts, a)),
        app_measured(ts, a),
    ensures
        body_stands(b, o, e, ts, a),
{
    if let app::AppModel::Const { out, value } = a {
        bytes::lemma_le(out as nat, 4);
        lemma_split(b, o, e, layout::le32(out), layout::spell_payload(value));
        fields::lemma_word(b, o, o + 4, out);
        match value {
            app::PayloadModel::Rat(qs) => {
                fields::lemma_rationals(b, o + 4, e, qs);
            },
            app::PayloadModel::Bits(bits) => {
                fields::lemma_flags(b, o + 4, e, bits);
            },
        }
    }
}

/// The body of each box.
proof fn lemma_body(b: Seq<u8>, o: int, e: int, ts: Seq<types::TypeModel>, a: app::AppModel)
    requires
        spans(b, o, e, layout::spell_body(ts, a)),
        app_measured(ts, a),
    ensures
        body_stands(b, o, e, ts, a),
{
    match a {
        app::AppModel::Const { .. } => {
            lemma_const(b, o, e, ts, a);
        },
        app::AppModel::Contract { .. } => {
            lemma_contract(b, o, e, ts, a);
        },
        app::AppModel::Cast { .. } => {
            lemma_cast(b, o, e, ts, a);
        },
        app::AppModel::Cell { complex_idx, inp, outs } => {
            let s0: Seq<u8> = layout::le32(complex_idx) + layout::le32(inp);
            lemma_split(b, o, e, s0, layout::spell_counted(outs));
            lemma_pair(b, o, o + s0.len(), complex_idx, inp);
            fields::lemma_list(b, o + 8, e, outs);
        },
        app::AppModel::Reshape { new_shape, inp, out } => {
            lemma_shaped(b, o, e, new_shape, inp, out);
        },
        app::AppModel::Broadcast { to_shape, inp, out } => {
            lemma_shaped(b, o, e, to_shape, inp, out);
        },
        app::AppModel::Copy { inp, outs } => {
            let n: u32 = outs.len() as u32;
            let s0: Seq<u8> = layout::le32(n) + layout::le32(inp);
            lemma_split(b, o, e, s0, layout::spell_wires(outs));
            lemma_pair(b, o, o + s0.len(), n, inp);
            fields::lemma_words(b, o + 8, e, outs);
        },
        app::AppModel::Delete { inp } => {
            fields::lemma_word(b, o, e, inp);
        },
        app::AppModel::Swap { in1, in2, out1, out2 } => {
            let s0: Seq<u8> = layout::le32(in1) + layout::le32(in2);
            let s1: Seq<u8> = s0 + layout::le32(out1);
            bytes::lemma_le(in1 as nat, 4);
            bytes::lemma_le(in2 as nat, 4);
            bytes::lemma_le(out1 as nat, 4);
            lemma_split(b, o, e, s1, layout::le32(out2));
            lemma_split(b, o, o + 12, s0, layout::le32(out1));
            lemma_pair(b, o, o + 8, in1, in2);
            fields::lemma_word(b, o + 8, o + 12, out1);
            fields::lemma_word(b, o + 12, e, out2);
        },
        app::AppModel::Stack { inputs, output } => {
            let s0: Seq<u8> = layout::spell_counted(inputs);
            lemma_split(b, o, e, s0, layout::le32(output));
            fields::lemma_list(b, o, o + s0.len(), inputs);
            fields::lemma_word(b, o + s0.len(), e, output);
        },
    }
}

/// The bytes of an application, field by field, wherever they stand.
pub proof fn law_app_fields(
    b: Seq<u8>,
    o: int,
    e: int,
    ts: Seq<types::TypeModel>,
    a: app::AppModel,
)
    requires
        spans(b, o, e, layout::spell_app(ts, a)),
        app_measured(ts, a),
    ensures
        app_stands(b, o, e, ts, a),
{
    let head: Seq<u8> = seq![a.tag(), layout::ROUND_EXACT, 0u8, 0u8];
    lemma_split(b, o, e, head, layout::spell_body(ts, a));
    assert(b[o] == b.subrange(o, o + 4)[0]);
    assert(b[o + 1] == b.subrange(o, o + 4)[1]);
    assert(b[o + 2] == b.subrange(o, o + 4)[2]);
    assert(b[o + 3] == b.subrange(o, o + 4)[3]);
    lemma_body(b, o + 4, e, ts, a);
}

// ---- complexes ----

/// Vertices stand one behind the other from `o` up to `end`, each as its coordinates.
pub open spec fn vertices_stand(
    b: Seq<u8>,
    o: int,
    end: int,
    vs: Seq<Seq<scalar::Ratio>>,
) -> bool
    decreases vs.len(),
{
    if vs.len() == 0 {
        o == end
    } else {
        exists|mid: int| #[trigger]
            rationals_stand(b, o, mid, vs[0]) && vertices_stand(b, mid, end, vs.drop_first())
    }
}

/// The simplices and cells of a complex of `n` vertices stand from `o` up to `end`: the
/// number of simplices, the simplices in canonical order, the number of cells, and each cell
/// as its mask and its extremal vertices.
pub open spec fn faces_stand(
    b: Seq<u8>,
    o: int,
    end: int,
    n: int,
    simplices: Seq<Set<u32>>,
    cells: Seq<(Set<u32>, Set<u32>)>,
) -> bool {
    let len = (n + 7) / 8;
    let p = o + 4 + simplices.len() * len;
    &&& word(b, o) == simplices.len()
    &&& forall|k: int|
        0 <= k < simplices.len() ==> bits_stand(
            b,
            o + 4 + k * len,
            n,
            members(#[trigger] simplices[k]),
        )
    &&& word(b, p) == cells.len()
    &&& forall|k: int|
        0 <= k < cells.len() ==> {
            &&& bits_stand(b, p + 4 + k * (2 * len), n, members((#[trigger] cells[k]).0))
            &&& bits_stand(b, p + 4 + k * (2 * len) + len, n, members(cells[k].1))
        }
    &&& end == p + 4 + cells.len() * (2 * len)
    &&& end <= b.len()
}

/// A complex stands from `o` up to `end`: the number of vertices, the ambient dimension, the
/// coordinates, the simplices in canonical order, the cells.
pub open spec fn complex_stands(
    b: Seq<u8>,
    o: int,
    end: int,
    c: simplex::ComplexModel,
) -> bool {
    &&& word(b, o) == c.vertices.len()
    &&& word(b, o + 4) == c.amb_dim
    &&& exists|p: int| #[trigger]
        vertices_stand(b, o + 8, p, c.vertices) && faces_stand(
            b,
            p,
            end,
            c.vertices.len() as int,
            layout::arranged(c.simplices),
            c.cells,
        )
}

/// The counts of a complex have room in their four bytes, and its sets hold vertices.
pub open spec fn complex_measured(c: simplex::ComplexModel) -> bool {
    let n = c.vertices.len();
    &&& n <= u32::MAX
    &&& c.simplices.len() <= u32::MAX
    &&& c.cells.len() <= u32::MAX
    &&& forall|i: int| 0 <= i < n ==> vertex_measured(#[trigger] c.vertices[i])
    &&& forall|i: int, x: u32|
        0 <= i < c.simplices.len() && #[trigger] c.simplices[i].contains(x) ==> x < n
    &&& forall|i: int, x: u32|
        0 <= i < c.cells.len() && #[trigger] c.cells[i].0.contains(x) ==> x < n
    &&& forall|i: int, x: u32|
        0 <= i < c.cells.len() && #[trigger] c.cells[i].1.contains(x) ==> x < n
}

/// The coordinates of a vertex have room.
pub open spec fn vertex_measured(v: Seq<scalar::Ratio>) -> bool {
    forall|i: int| 0 <= i < v.len() ==> measurable(#[trigger] v[i])
}

/// Vertices one behind the other.
proof fn lemma_vertices(b: Seq<u8>, o: int, e: int, vs: Seq<Seq<scalar::Ratio>>)
    requires
        spans(b, o, e, layout::spell_vertices(vs)),
        forall|i: int| 0 <= i < vs.len() ==> vertex_measured(#[trigger] vs[i]),
    ensures
        vertices_stand(b, o, e, vs),
    decreases vs.len(),
{
    if vs.len() > 0 {
        let f = |v: Seq<scalar::Ratio>| layout::spell_rationals(v);
        let rest: Seq<Seq<scalar::Ratio>> = vs.drop_first();
        fields::lemma_spell_first(f, vs);
        let s: Seq<u8> = layout::spell_rationals(vs[0]);
        let mid: int = o + s.len();
        lemma_split(b, o, e, s, layout::spell_vertices(rest));
        assert(vertex_measured(vs[0]));
        fields::lemma_rationals(b, o, mid, vs[0]);
        assert forall|i: int| 0 <= i < rest.len() implies vertex_measured(#[trigger] rest[i]) by {
            assert(rest[i] == vs[i + 1]);
        }
        lemma_vertices(b, mid, e, rest);
        assert(rationals_stand(b, o, mid, vs[0]) && vertices_stand(b, mid, e, vs.drop_first()));
    } else {
        assert(b.subrange(o, e).len() == 0);
    }
}

/// Sets one behind the other.
proof fn lemma_sets(b: Seq<u8>, o: int, e: int, xs: Seq<Set<u32>>, n: u32)
    requires
        spans(b, o, e, layout::spell_sets(xs, n)),
        forall|i: int, x: u32| 0 <= i < xs.len() && #[trigger] xs[i].contains(x) ==> x < n,
    ensures
        e == o + xs.len() * ((n + 7) / 8),
        forall|k: int|
            0 <= k < xs.len() ==> bits_stand(
                b,
                o + k * ((n + 7) / 8),
                n as int,
                members(#[trigger] xs[k]),
            ),
    decreases xs.len(),
{
    let len: int = (n + 7) / 8;
    if xs.len() > 0 {
        let most: Seq<Set<u32>> = xs.drop_last();
        let s: Seq<u8> = layout::spell_sets(most, n);
        lemma_split(b, o, e, s, layout::spell_set(xs.last(), n));
        assert forall|i: int, x: u32| 0 <= i < most.len() && #[trigger] most[i].contains(
            x,
        ) implies x < n by {
            assert(xs[i].contains(x));
        }
        lemma_sets(b, o, o + s.len(), most, n);
        assert forall|x: u32| #[trigger] xs.last().contains(x) implies x < n by {
            assert(xs[xs.len() - 1].contains(x));
        }
        fields::lemma_set(b, o + s.len(), e, xs.last(), n);
        let m: int = most.len() as int;
        assert(m * len + len == (m + 1) * len) by (nonlinear_arith);
        assert forall|k: int| 0 <= k < xs.len() implies bits_stand(
            b,
            o + k * len,
            n as int,
            members(#[trigger] xs[k]),
        ) by {
            if k < m {
                assert(most[k] == xs[k]);
                assert(bits_stand(b, o + k * len, n as int, members(most[k])));
            }
        }
    } else {
        assert(b.subrange(o, e).len() == 0);
        assert(0 * len == 0) by (nonlinear_arith);
    }
}

/// Cells one behind the other.
proof fn lemma_cells(b: Seq<u8>, o: int, e: int, xs: Seq<(Set<u32>, Set<u32>)>, n: u32)
    requires
        spans(b, o, e, layout::spell_cells(xs, n)),
        forall|i: int, x: u32| 0 <= i < xs.len() && #[trigger] xs[i].0.contains(x) ==> x < n,
        forall|i: int, x: u32| 0 <= i < xs.len() && #[trigger] xs[i].1.contains(x) ==> x < n,
    ensures
        e == o + xs.len() * (2 * ((n + 7) / 8)),
        forall|k: int|
            0 <= k < xs.len() ==> {
                &&& bits_stand(
                    b,
                    o + k * (2 * ((n + 7) / 8)),
                    n as int,
                    members((#[trigger] xs[k]).0),
                )
                &&& bits_stand(
                    b,
                    o + k * (2 * ((n + 7) / 8)) + (n + 7) / 8,
                    n as int,
                    members(xs[k].1),
                )
            },
    decreases xs.len(),
{
    let len: int = (n + 7) / 8;
    if xs.len() > 0 {
        let most: Seq<(Set<u32>, Set<u32>)> = xs.drop_last();
        let s: Seq<u8> = layout::spell_cells(most, n);
        let c: (Set<u32>, Set<u32>) = xs.last();
        lemma_split(b, o, e, s, layout::spell_cell(c, n));
        assert forall|i: int, x: u32| 0 <= i < most.len() && #[trigger] most[i].0.contains(
            x,
        ) implies x < n by {
            assert(xs[i].0.contains(x));
        }
        assert forall|i: int, x: u32| 0 <= i < most.len() && #[trigger] most[i].1.contains(
            x,
        ) implies x < n by {
            assert(xs[i].1.contains(x));
        }
        lemma_cells(b, o, o + s.len(), most, n);
        assert forall|x: u32| #[trigger] c.0.contains(x) implies x < n by {
            assert(xs[xs.len() - 1].0.contains(x));
        }
        assert forall|x: u32| #[trigger] c.1.contains(x) implies x < n by {
            assert(xs[xs.len() - 1].1.contains(x));
        }
        let p: int = o + s.len();
        lemma_split(b, p, e, layout::spell_set(c.0, n), layout::spell_set(c.1, n));
        let q: int = p + layout::spell_set(c.0, n).len();
        fields::lemma_set(b, p, q, c.0, n);
        fields::lemma_set(b, q, e, c.1, n);
        let m: int = most.len() as int;
        assert(m * (2 * len) + 2 * len == (m + 1) * (2 * len)) by (nonlinear_arith);
        assert forall|k: int| 0 <= k < xs.len() implies {
            &&& bits_stand(b, o + k * (2 * len), n as int, members((#[trigger] xs[k]).0))
            &&& bits_stand(b, o + k * (2 * len) + len, n as int, members(xs[k].1))
        } by {
            if k < m {
                assert(most[k] == xs[k]);
                assert(bits_stand(b, o + k * (2 * len), n as int, members(most[k].0)));
            }
        }
    } else {
        assert(b.subrange(o, e).len() == 0);
        assert(0 * (2 * len) == 0) by (nonlinear_arith);
    }
}

/// The bytes of a complex, field by field, wherever they stand.
pub proof fn law_complex_fields(b: Seq<u8>, o: int, e: int, c: simplex::ComplexModel)
    requires
        spans(b, o, e, layout::spell_complex(c)),
        complex_measured(c),
    ensures
        complex_stands(b, o, e, c),
{
    let n: u32 = c.vertices.len() as u32;
    let xs: Seq<Set<u32>> = layout::arranged(c.simplices);
    let s0: Seq<u8> = layout::le32(n);
    let s1: Seq<u8> = layout::le32(c.amb_dim);
    let s2: Seq<u8> = layout::spell_vertices(c.vertices);
    let s3: Seq<u8> = layout::le32(c.simplices.len() as u32);
    let s4: Seq<u8> = layout::spell_sets(xs, n);
    let s5: Seq<u8> = layout::le32(c.cells.len() as u32);
    let s6: Seq<u8> = layout::spell_cells(c.cells, n);
    bytes::lemma_le(n as nat, 4);
    bytes::lemma_le(c.amb_dim as nat, 4);
    bytes::lemma_le(c.simplices.len(), 4);
    bytes::lemma_le(c.cells.len(), 4);
    let o2: int = o + 8;
    let o3: int = o2 + s2.len();
    let o4: int = o3 + 4;
    let o5: int = o4 + s4.len();
    let o6: int = o5 + 4;
    lemma_split(b, o, e, s0 + s1 + s2 + s3 + s4 + s5, s6);
    lemma_split(b, o, o6, s0 + s1 + s2 + s3 + s4, s5);
    lemma_split(b, o, o5, s0 + s1 + s2 + s3, s4);
    lemma_split(b, o, o4, s0 + s1 + s2, s3);
    lemma_split(b, o, o3, s0 + s1, s2);
    lemma_pair(b, o, o2, n, c.amb_dim);
    lemma_vertices(b, o2, o3, c.vertices);
    fields::lemma_word(b, o3, o4, c.simplices.len() as u32);
    order::law_arranged_sorts(c.simplices);
    assert forall|i: int, x: u32| 0 <= i < xs.len() && #[trigger] xs[i].contains(x) implies x
        < n by {
        assert(xs.to_multiset().count(xs[i]) > 0) by {
            xs.to_multiset_ensures();
            assert(xs.contains(xs[i]));
        }
        c.simplices.to_multiset_ensures();
        assert(c.simplices.contains(xs[i]));
        let j: int = choose|j: int| 0 <= j < c.simplices.len() && c.simplices[j] == xs[i];
        assert(c.simplices[j].contains(x));
    }
    lemma_sets(b, o4, o5, xs, n);
    fields::lemma_word(b, o5, o6, c.cells.len() as u32);
    lemma_cells(b, o6, e, c.cells, n);
    assert(vertices_stand(b, o + 8, o3, c.vertices));
    assert(faces_stand(b, o3, e, c.vertices.len() as int, xs, c.cells));
}

} // verus!
