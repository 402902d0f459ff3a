//! What is spelled is read back.

use super::super::app;
use super::super::graph;
use super::super::int_bytes;
use super::super::scalar;
use super::super::simplex;
use super::super::types;
use super::super::types::{Dtype, Kind};
use super::bytes;
use super::faithful;
use super::layout;
use super::order;
use vstd::prelude::*;

verus! {

/// A rational whose spelling can be read: it is in lowest terms, and its lengths have four
/// bytes.
pub open spec fn rational_expressible(q: scalar::Ratio) -> bool {
    &&& scalar::canonical(q)
    &&& int_bytes::signed_bytes(q.num).len() <= u32::MAX
    &&& int_bytes::magnitude_bytes(q.den as nat).len() <= u32::MAX
}

/// Each rational of a list can be spelled.
pub open spec fn rationals_expressible(qs: Seq<scalar::Ratio>) -> bool {
    forall|i: int| 0 <= i < qs.len() ==> rational_expressible(#[trigger] qs[i])
}

/// The members of a set are below `n`.
pub open spec fn below(s: Set<u32>, n: nat) -> bool {
    forall|x: u32| #[trigger] s.contains(x) ==> x < n
}

/// A complex whose spelling can be read: counts have four bytes, each vertex has its
/// coordinates, and vertices exist.
pub open spec fn complex_expressible(c: simplex::ComplexModel) -> bool {
    &&& c.vertices.len() <= u32::MAX
    &&& c.simplices.len() <= u32::MAX
    &&& c.cells.len() <= u32::MAX
    &&& forall|i: int| 0 <= i < c.vertices.len() ==> (#[trigger] c.vertices[i]).len() == c.amb_dim
    &&& forall|i: int| 0 <= i < c.vertices.len() ==> rationals_expressible(#[trigger] c.vertices[i])
    &&& forall|i: int|
        0 <= i < c.simplices.len() ==> below(#[trigger] c.simplices[i], c.vertices.len())
    &&& forall|i: int| 0 <= i < c.cells.len() ==> below((#[trigger] c.cells[i]).0, c.vertices.len())
    &&& forall|i: int| 0 <= i < c.cells.len() ==> below((#[trigger] c.cells[i]).1, c.vertices.len())
}

/// Where items have no bytes, their count exceeds what follows by no more than the slack.
/// `behind` bytes follow the complex.
pub open spec fn roomy(c: simplex::ComplexModel, behind: int) -> bool {
    &&& c.amb_dim == 0 ==> c.vertices.len() <= layout::spell_complex(c).len() - 8 + behind + 1024
    &&& c.vertices.len() == 0 ==> c.simplices.len() <= 4 + behind + 1024 && c.cells.len() <= behind
        + 1024
}

/// A payload that has the entries of its type.
pub open spec fn payload_expressible(p: app::PayloadModel, t: types::TypeModel) -> bool {
    match p {
        app::PayloadModel::Rat(qs) => t.dtype.kind == Kind::Rat && qs.len() == types::entries(
            t.shape,
        ) && rationals_expressible(qs),
        app::PayloadModel::Bits(bits) => t.dtype.kind != Kind::Rat && bits.len() == types::entries(
            t.shape,
        ) as u32,
    }
}

/// An application whose spelling can be read.
pub open spec fn app_expressible(ts: Seq<types::TypeModel>, a: app::AppModel) -> bool {
    match a {
        app::AppModel::Const { out, value } => out < ts.len() && payload_expressible(
            value,
            ts[out as int],
        ),
        app::AppModel::Contract { inputs, output, extents, in_bindings, out_binding } => {
            &&& inputs.len() <= u32::MAX
            &&& output < ts.len()
            &&& extents.len() <= u32::MAX
            &&& in_bindings.len() == inputs.len()
            &&& forall|i: int| 0 <= i < in_bindings.len() ==> (#[trigger] in_bindings[i]).len() <= u32::MAX
            &&& out_binding.len() <= u32::MAX
        },
        app::AppModel::Cast { inp, out } => inp < ts.len() && out < ts.len(),
        app::AppModel::Cell { outs, .. } => outs.len() <= u32::MAX,
        app::AppModel::Reshape { new_shape, .. } => new_shape.len() <= u32::MAX,
        app::AppModel::Broadcast { to_shape, .. } => to_shape.len() <= u32::MAX,
        app::AppModel::Copy { outs, .. } => outs.len() <= u32::MAX,
        app::AppModel::Stack { inputs, .. } => inputs.len() <= u32::MAX,
        _ => true,
    }
}

/// The number of bytes behind complex `i` of a graph.
pub open spec fn behind(net: graph::NetModel, i: int) -> int {
    layout::spell(net).len() - (8 + 4 + layout::spell_types(net.wire_types).len() + 4
        + layout::spell_pool(net.complexes.take(i + 1)).len())
}

/// A graph whose spelling can be read.
pub open spec fn expressible(net: graph::NetModel) -> bool {
    &&& net.wire_types.len() <= u32::MAX
    &&& net.complexes.len() <= u32::MAX
    &&& net.apps.len() <= u32::MAX
    &&& net.graph_inputs.len() <= u32::MAX
    &&& net.graph_outputs.len() <= u32::MAX
    &&& forall|i: int|
        0 <= i < net.wire_types.len() ==> (#[trigger] net.wire_types[i]).shape.len() <= u32::MAX
    &&& forall|i: int|
        0 <= i < net.complexes.len() ==> complex_expressible(#[trigger] net.complexes[i])
    &&& forall|i: int|
        0 <= i < net.complexes.len() ==> roomy(#[trigger] net.complexes[i], behind(net, i))
    &&& forall|i: int|
        0 <= i < net.apps.len() ==> app_expressible(net.wire_types, #[trigger] net.apps[i])
}

/// The complex with its simplices in canonical order.
pub open spec fn ordered(c: simplex::ComplexModel) -> simplex::ComplexModel {
    simplex::ComplexModel { simplices: layout::arranged(c.simplices), ..c }
}

/// The graph with the simplices of each complex in canonical order.
pub open spec fn canonical_form(net: graph::NetModel) -> graph::NetModel {
    graph::NetModel {
        complexes: Seq::new(net.complexes.len(), |i: int| ordered(net.complexes[i])),
        ..net
    }
}

/// Reading item `k` of a list where it is spelled gives the item.
pub open spec fn reads<T>(
    b: Seq<u8>,
    off: int,
    item: spec_fn(int, Seq<T>) -> layout::Parsed<T>,
    f: spec_fn(T) -> Seq<u8>,
    xs: Seq<T>,
    k: int,
) -> bool {
    forall|o: int, o2: int|
        #[trigger] bytes::spans(b, o, o2, f(xs[k])) && o2 == off + layout::spell_all(
            f,
            xs.take(k + 1),
        ).len() ==> item(o, xs.take(k)) == Ok::<(T, int), layout::CanonFault>((xs[k], o2))
}

/// A list whose items are read back is read back.
proof fn lemma_many<T>(
    b: Seq<u8>,
    off: int,
    end: int,
    item: spec_fn(int, Seq<T>) -> layout::Parsed<T>,
    f: spec_fn(T) -> Seq<u8>,
    xs: Seq<T>,
)
    requires
        bytes::spans(b, off, end, layout::spell_all(f, xs)),
        forall|k: int| 0 <= k < xs.len() ==> #[trigger] reads(b, off, item, f, xs, k),
    ensures
        layout::many(item, off, xs.len() as int) == Ok::<(Seq<T>, int), layout::CanonFault>(
            (xs, end),
        ),
    decreases xs.len(),
{
    if xs.len() == 0 {
        assert(xs =~= Seq::empty());
        assert(b.subrange(off, end).len() == 0);
    } else {
        let front: Seq<T> = xs.drop_last();
        let last: int = xs.len() - 1;
        bytes::lemma_split(b, off, end, layout::spell_all(f, front), f(xs.last()));
        let mid: int = off + layout::spell_all(f, front).len();
        assert forall|k: int| 0 <= k < front.len() implies #[trigger] reads(
            b,
            off,
            item,
            f,
            front,
            k,
        ) by {
            assert(reads(b, off, item, f, xs, k));
            assert(front[k] == xs[k]);
            assert(front.take(k) =~= xs.take(k));
            assert(front.take(k + 1) =~= xs.take(k + 1));
        }
        lemma_many(b, off, mid, item, f, front);
        assert(reads(b, off, item, f, xs, last));
        assert(xs.take(last) =~= front);
        assert(xs.take(last + 1) =~= xs);
        assert(bytes::spans(b, mid, end, f(xs[last])));
        assert(item(mid, front) == Ok::<(T, int), layout::CanonFault>((xs[last], end)));
        assert(front.push(xs[last]) =~= xs);
    }
}

/// A word is read back.
proof fn lemma_word(b: Seq<u8>, off: int, end: int, x: nat, n: nat, what: &'static str)
    requires
        bytes::spans(b, off, end, layout::le(x, n)),
        x < int_bytes::pow256(n),
    ensures
        end == off + n,
        layout::p_word(b, off, n as int, what) == Ok::<(nat, int), layout::CanonFault>((x, end)),
{
    bytes::lemma_le(x, n);
    assert(b.subrange(off, end).len() == n);
}

/// A wire or a count is read back.
proof fn lemma_u32(b: Seq<u8>, off: int, end: int, x: u32, what: &'static str)
    requires
        bytes::spans(b, off, end, layout::le32(x)),
    ensures
        end == off + 4,
        layout::p_u32(b, off, what) == Ok::<(u32, int), layout::CanonFault>((x, end)),
{
    bytes::lemma_pow256();
    lemma_word(b, off, end, x as nat, 4, what);
}

/// An extent is read back.
proof fn lemma_u64(b: Seq<u8>, off: int, end: int, x: u64, what: &'static str)
    requires
        bytes::spans(b, off, end, layout::le64(x)),
    ensures
        end == off + 8,
        layout::p_u64(b, off, what) == Ok::<(u64, int), layout::CanonFault>((x, end)),
{
    bytes::lemma_pow256();
    lemma_word(b, off, end, x as nat, 8, what);
}

/// A list of wires is read back.
proof fn lemma_wires(b: Seq<u8>, off: int, end: int, ws: Seq<u32>, what: &'static str)
    requires
        bytes::spans(b, off, end, layout::spell_wires(ws)),
    ensures
        layout::many(layout::wire_item(b, what), off, ws.len() as int) == Ok::<
            (Seq<u32>, int),
            layout::CanonFault,
        >((ws, end)),
{
    let item = layout::wire_item(b, what);
    let f = |w: u32| layout::le32(w);
    assert forall|k: int| 0 <= k < ws.len() implies #[trigger] reads(b, off, item, f, ws, k) by {
        assert forall|o: int, o2: int|
            #[trigger] bytes::spans(b, o, o2, f(ws[k])) && o2 == off + layout::spell_all(
                f,
                ws.take(k + 1),
            ).len() implies item(o, ws.take(k)) == Ok::<(u32, int), layout::CanonFault>(
            (ws[k], o2),
        ) by {
            lemma_u32(b, o, o2, ws[k], what);
        }
    }
    lemma_many(b, off, end, item, f, ws);
}

/// A counted list of wires is read back.
proof fn lemma_counted(
    b: Seq<u8>,
    off: int,
    end: int,
    ws: Seq<u32>,
    count: &'static str,
    what: &'static str,
)
    requires
        bytes::spans(b, off, end, layout::spell_counted(ws)),
        ws.len() <= u32::MAX,
    ensures
        layout::p_counted(b, off, count, what) == Ok::<(Seq<u32>, int), layout::CanonFault>(
            (ws, end),
        ),
{
    let n: u32 = ws.len() as u32;
    bytes::lemma_split(b, off, end, layout::le32(n), layout::spell_wires(ws));
    bytes::lemma_le(n as nat, 4);
    lemma_u32(b, off, off + 4, n, count);
    lemma_wires(b, off + 4, end, ws, what);
}

/// Counted extents are read back.
proof fn lemma_words(
    b: Seq<u8>,
    off: int,
    end: int,
    ws: Seq<u64>,
    count: &'static str,
    what: &'static str,
)
    requires
        bytes::spans(b, off, end, layout::spell_shape(ws)),
        ws.len() <= u32::MAX,
    ensures
        layout::p_words(b, off, count, what) == Ok::<(Seq<u64>, int), layout::CanonFault>(
            (ws, end),
        ),
{
    let n: u32 = ws.len() as u32;
    bytes::lemma_split(b, off, end, layout::le32(n), layout::spell_words(ws));
    bytes::lemma_le(n as nat, 4);
    lemma_u32(b, off, off + 4, n, count);
    let at: int = off + 4;
    let item = layout::word_item(b, what);
    let f = |w: u64| layout::le64(w);
    assert forall|k: int| 0 <= k < ws.len() implies #[trigger] reads(b, at, item, f, ws, k) by {
        assert forall|o: int, o2: int|
            #[trigger] bytes::spans(b, o, o2, f(ws[k])) && o2 == at + layout::spell_all(
                f,
                ws.take(k + 1),
            ).len() implies item(o, ws.take(k)) == Ok::<(u64, int), layout::CanonFault>(
            (ws[k], o2),
        ) by {
            lemma_u64(b, o, o2, ws[k], what);
        }
    }
    lemma_many(b, at, end, item, f, ws);
}

/// An element type is read back.
proof fn lemma_dtype(b: Seq<u8>, off: int, end: int, d: Dtype)
    requires
        bytes::spans(b, off, end, layout::spell_dtype(d)),
    ensures
        end == off + 4,
        layout::p_dtype(b, off) == Ok::<(Dtype, int), layout::CanonFault>((d, end)),
{
    let s: Seq<u8> = layout::spell_dtype(d);
    assert(b.subrange(off, end).len() == 4);
    assert(s[0] == d.kind.code() && s[1] == d.sign.code() && s[2] == d.ext.code() && s[3] == 0);
}

/// A tensor type is read back.
proof fn lemma_type(b: Seq<u8>, off: int, end: int, t: types::TypeModel)
    requires
        bytes::spans(b, off, end, layout::spell_type(t)),
        t.shape.len() <= u32::MAX,
    ensures
        layout::p_type(b, off) == Ok::<(types::TypeModel, int), layout::CanonFault>((t, end)),
{
    bytes::lemma_split(
        b,
        off,
        end,
        layout::spell_dtype(t.dtype),
        layout::spell_shape(t.shape),
    );
    lemma_dtype(b, off, off + 4, t.dtype);
    lemma_words(b, off + 4, end, t.shape, "shape rank", "shape extent");
}

/// A rational is read back.
pub proof fn lemma_rational(b: Seq<u8>, off: int, end: int, q: scalar::Ratio)
    requires
        bytes::spans(b, off, end, layout::spell_rational(q)),
        rational_expressible(q),
    ensures
        layout::p_rational(b, off) == Ok::<(scalar::Ratio, int), layout::CanonFault>((q, end)),
{
    let nb: Seq<u8> = int_bytes::signed_bytes(q.num);
    let db: Seq<u8> = int_bytes::magnitude_bytes(q.den as nat);
    int_bytes::lemma_signed_bytes(q.num);
    int_bytes::lemma_magnitude_bytes(q.den as nat);
    let s1: Seq<u8> = layout::le32(nb.len() as u32);
    let s2: Seq<u8> = layout::le32(db.len() as u32);
    bytes::lemma_le(nb.len(), 4);
    bytes::lemma_le(db.len(), 4);
    bytes::lemma_split(b, off, end, s1 + s2 + nb, db);
    let o3: int = off + (s1 + s2 + nb).len();
    bytes::lemma_split(b, off, o3, s1 + s2, nb);
    bytes::lemma_split(b, off, off + (s1 + s2).len(), s1, s2);
    lemma_u32(b, off, off + 4, nb.len() as u32, "rational numerator length");
    lemma_u32(b, off + 4, off + 8, db.len() as u32, "rational denominator length");
    assert(o3 == off + 8 + nb.len());
    assert(end == o3 + db.len());
    assert(layout::rational_defect(nb, db) is None);
}

/// A list of rationals is read back.
proof fn lemma_rationals(b: Seq<u8>, off: int, end: int, qs: Seq<scalar::Ratio>)
    requires
        bytes::spans(b, off, end, layout::spell_rationals(qs)),
        rationals_expressible(qs),
    ensures
        layout::many(layout::rational_item(b), off, qs.len() as int) == Ok::<
            (Seq<scalar::Ratio>, int),
            layout::CanonFault,
        >((qs, end)),
{
    let item = layout::rational_item(b);
    let f = |q: scalar::Ratio| layout::spell_rational(q);
    assert forall|k: int| 0 <= k < qs.len() implies #[trigger] reads(b, off, item, f, qs, k) by {
        assert forall|o: int, o2: int|
            #[trigger] bytes::spans(b, o, o2, f(qs[k])) && o2 == off + layout::spell_all(
                f,
                qs.take(k + 1),
            ).len() implies item(o, qs.take(k)) == Ok::<(scalar::Ratio, int), layout::CanonFault>(
            (qs[k], o2),
        ) by {
            lemma_rational(b, o, o2, qs[k]);
        }
    }
    lemma_many(b, off, end, item, f, qs);
}

/// A set is read back.
proof fn lemma_set(b: Seq<u8>, off: int, end: int, s: Set<u32>, n: u32)
    requires
        bytes::spans(b, off, end, layout::spell_set(s, n)),
        below(s, n as nat),
    ensures
        layout::p_set(b, off, n) == Ok::<(Set<u32>, int), layout::CanonFault>((s, end)),
{
    bytes::lemma_set_reads_back(s, n);
}

/// The vertices of a complex are read back.
proof fn lemma_vertices(
    b: Seq<u8>,
    off: int,
    end: int,
    vs: Seq<Seq<scalar::Ratio>>,
    dim: u32,
)
    requires
        bytes::spans(b, off, end, layout::spell_vertices(vs)),
        forall|i: int| 0 <= i < vs.len() ==> (#[trigger] vs[i]).len() == dim,
        forall|i: int| 0 <= i < vs.len() ==> rationals_expressible(#[trigger] vs[i]),
    ensures
        layout::many(layout::vertex_item(b, dim), off, vs.len() as int) == Ok::<
            (Seq<Seq<scalar::Ratio>>, int),
            layout::CanonFault,
        >((vs, end)),
{
    let item = layout::vertex_item(b, dim);
    let f = |v: Seq<scalar::Ratio>| layout::spell_rationals(v);
    assert forall|k: int| 0 <= k < vs.len() implies #[trigger] reads(b, off, item, f, vs, k) by {
        assert forall|o: int, o2: int|
            #[trigger] bytes::spans(b, o, o2, f(vs[k])) && o2 == off + layout::spell_all(
                f,
                vs.take(k + 1),
            ).len() implies item(o, vs.take(k)) == Ok::<
            (Seq<scalar::Ratio>, int),
            layout::CanonFault,
        >((vs[k], o2)) by {
            lemma_rationals(b, o, o2, vs[k]);
        }
    }
    lemma_many(b, off, end, item, f, vs);
}

/// Simplices in order are read back.
proof fn lemma_simplices(b: Seq<u8>, off: int, end: int, xs: Seq<Set<u32>>, n: u32)
    requires
        bytes::spans(b, off, end, layout::spell_sets(xs, n)),
        forall|i: int| 0 <= i < xs.len() ==> below(#[trigger] xs[i], n as nat),
        order::steps(xs),
    ensures
        layout::many(layout::simplex_item(b, n), off, xs.len() as int) == Ok::<
            (Seq<Set<u32>>, int),
            layout::CanonFault,
        >((xs, end)),
{
    let item = layout::simplex_item(b, n);
    let f = |s: Set<u32>| layout::spell_set(s, n);
    assert forall|k: int| 0 <= k < xs.len() implies #[trigger] reads(b, off, item, f, xs, k) by {
        assert forall|o: int, o2: int|
            #[trigger] bytes::spans(b, o, o2, f(xs[k])) && o2 == off + layout::spell_all(
                f,
                xs.take(k + 1),
            ).len() implies item(o, xs.take(k)) == Ok::<(Set<u32>, int), layout::CanonFault>(
            (xs[k], o2),
        ) by {
            lemma_set(b, o, o2, xs[k], n);
            if k > 0 {
                assert(!layout::before(xs[k], xs[k - 1]));
                assert(xs.take(k).last() == xs[k - 1]);
            }
        }
    }
    lemma_many(b, off, end, item, f, xs);
}

/// Cells are read back.
proof fn lemma_cells(b: Seq<u8>, off: int, end: int, xs: Seq<(Set<u32>, Set<u32>)>, n: u32)
    requires
        bytes::spans(b, off, end, layout::spell_cells(xs, n)),
        forall|i: int| 0 <= i < xs.len() ==> below((#[trigger] xs[i]).0, n as nat),
        forall|i: int| 0 <= i < xs.len() ==> below((#[trigger] xs[i]).1, n as nat),
    ensures
        layout::many(layout::cell_item(b, n), off, xs.len() as int) == Ok::<
            (Seq<(Set<u32>, Set<u32>)>, int),
            layout::CanonFault,
        >((xs, end)),
{
    let item = layout::cell_item(b, n);
    let f = |c: (Set<u32>, Set<u32>)| layout::spell_cell(c, n);
    assert forall|k: int| 0 <= k < xs.len() implies #[trigger] reads(b, off, item, f, xs, k) by {
        assert forall|o: int, o2: int|
            #[trigger] bytes::spans(b, o, o2, f(xs[k])) && o2 == off + layout::spell_all(
                f,
                xs.take(k + 1),
            ).len() implies item(o, xs.take(k)) == Ok::<
            ((Set<u32>, Set<u32>), int),
            layout::CanonFault,
        >((xs[k], o2)) by {
            let s: Seq<u8> = layout::spell_set(xs[k].0, n);
            let t: Seq<u8> = layout::spell_set(xs[k].1, n);
            bytes::lemma_split(b, o, o2, s, t);
            lemma_set(b, o, o + s.len(), xs[k].0, n);
            lemma_set(b, o + s.len(), o2, xs[k].1, n);
        }
    }
    lemma_many(b, off, end, item, f, xs);
}

/// Items without bytes have no bytes together.
proof fn lemma_no_bytes<T>(f: spec_fn(T) -> Seq<u8>, xs: Seq<T>)
    requires
        forall|x: T| (#[trigger] f(x)).len() == 0,
    ensures
        layout::spell_all(f, xs).len() == 0,
    decreases xs.len(),
{
    if xs.len() > 0 {
        lemma_no_bytes(f, xs.drop_last());
    }
}

/// Over no vertices, sets and cells have no bytes.
proof fn lemma_empty_faces(simplices: Seq<Set<u32>>, cells: Seq<(Set<u32>, Set<u32>)>)
    ensures
        layout::spell_sets(simplices, 0).len() == 0,
        layout::spell_cells(cells, 0).len() == 0,
{
    lemma_no_bytes(|s: Set<u32>| layout::spell_set(s, 0), simplices);
    lemma_no_bytes(|c: (Set<u32>, Set<u32>)| layout::spell_cell(c, 0), cells);
}

/// The faces of a complex are read back, the simplices in order.
proof fn lemma_faces(
    b: Seq<u8>,
    off: int,
    end: int,
    simplices: Seq<Set<u32>>,
    cells: Seq<(Set<u32>, Set<u32>)>,
    n: u32,
)
    requires
        bytes::spans(b, off, end, faithful::spell_faces(simplices, cells, n)),
        simplices.len() <= u32::MAX,
        cells.len() <= u32::MAX,
        order::steps(simplices),
        forall|i: int| 0 <= i < simplices.len() ==> below(#[trigger] simplices[i], n as nat),
        forall|i: int| 0 <= i < cells.len() ==> below((#[trigger] cells[i]).0, n as nat),
        forall|i: int| 0 <= i < cells.len() ==> below((#[trigger] cells[i]).1, n as nat),
        n == 0 ==> simplices.len() <= 4 + (b.len() - end) + 1024 && cells.len() <= b.len() - end
            + 1024,
    ensures
        layout::p_faces(b, off, n) == Ok::<
            ((Seq<Set<u32>>, Seq<(Set<u32>, Set<u32>)>), int),
            layout::CanonFault,
        >(((simplices, cells), end)),
{
    order::lemma_arranged_fixed(simplices);
    lemma_empty_faces(simplices, cells);
    let s1: Seq<u8> = layout::le32(simplices.len() as u32);
    let s2: Seq<u8> = layout::spell_sets(simplices, n);
    let s3: Seq<u8> = layout::le32(cells.len() as u32);
    let s4: Seq<u8> = layout::spell_cells(cells, n);
    bytes::lemma_le(simplices.len(), 4);
    bytes::lemma_le(cells.len(), 4);
    bytes::lemma_split(b, off, end, s1 + s2 + s3, s4);
    let o3: int = off + (s1 + s2 + s3).len();
    bytes::lemma_split(b, off, o3, s1 + s2, s3);
    let o2: int = off + (s1 + s2).len();
    bytes::lemma_split(b, off, o2, s1, s2);
    let o1: int = off + s1.len();
    lemma_u32(b, off, o1, simplices.len() as u32, "simplex count");
    lemma_simplices(b, o1, o2, simplices, n);
    lemma_u32(b, o2, o3, cells.len() as u32, "cell count");
    lemma_cells(b, o3, end, cells, n);
    assert(end == o3 + s4.len());
}

/// A complex in order is read back.
proof fn lemma_complex(b: Seq<u8>, off: int, end: int, c: simplex::ComplexModel)
    requires
        bytes::spans(b, off, end, layout::spell_complex(c)),
        complex_expressible(c),
        order::steps(c.simplices),
        roomy(c, b.len() - end),
    ensures
        layout::p_complex(b, off) == Ok::<(simplex::ComplexModel, int), layout::CanonFault>(
            (c, end),
        ),
{
    let n: u32 = c.vertices.len() as u32;
    faithful::lemma_complex_spelling(c);
    let s1: Seq<u8> = layout::le32(n);
    let s2: Seq<u8> = layout::le32(c.amb_dim);
    let s3: Seq<u8> = layout::spell_vertices(c.vertices);
    let s4: Seq<u8> = faithful::spell_faces(c.simplices, c.cells, n);
    bytes::lemma_le(n as nat, 4);
    bytes::lemma_le(c.amb_dim as nat, 4);
    bytes::lemma_split(b, off, end, s1 + s2 + s3, s4);
    let o3: int = off + (s1 + s2 + s3).len();
    bytes::lemma_split(b, off, o3, s1 + s2, s3);
    bytes::lemma_split(b, off, off + 8, s1, s2);
    lemma_u32(b, off, off + 4, n, "vertex count");
    lemma_u32(b, off + 4, off + 8, c.amb_dim, "ambient dimension");
    lemma_vertices(b, off + 8, o3, c.vertices, c.amb_dim);
    lemma_faces(b, o3, end, c.simplices, c.cells, n);
    assert(end - off == layout::spell_complex(c).len());
}

/// A list of bits is what its marks say.
proof fn lemma_listed(bits: Seq<bool>, n: u32)
    requires
        bits.len() == n,
    ensures
        below(layout::marked(bits), n as nat),
        layout::listed_bits(layout::marked(bits), n) == bits,
{
    let s: Set<u32> = layout::marked(bits);
    assert forall|w: u32| #[trigger] s.contains(w) implies w < n && bits[w as int] by {
        let i: int = choose|i: int| 0 <= i < bits.len() && #[trigger] bits[i] && i as u32 == w;
        assert(i == w);
    }
    assert forall|i: int| 0 <= i < n implies layout::listed_bits(s, n)[i] == bits[i] by {
        if bits[i] {
            assert(i as u32 == i);
            assert(s.contains(i as u32));
        }
    }
    assert(layout::listed_bits(s, n) =~= bits);
}

/// A payload is read back.
proof fn lemma_payload(
    b: Seq<u8>,
    off: int,
    end: int,
    p: app::PayloadModel,
    t: types::TypeModel,
)
    requires
        bytes::spans(b, off, end, layout::spell_payload(p)),
        payload_expressible(p, t),
    ensures
        layout::p_payload(b, off, t) == Ok::<(app::PayloadModel, int), layout::CanonFault>(
            (p, end),
        ),
{
    match p {
        app::PayloadModel::Rat(qs) => {
            lemma_rationals(b, off, end, qs);
        },
        app::PayloadModel::Bits(bits) => {
            let n: u32 = types::entries(t.shape) as u32;
            lemma_listed(bits, n);
            lemma_set(b, off, end, layout::marked(bits), n);
        },
    }
}

/// Bindings are read back.
proof fn lemma_bindings(b: Seq<u8>, off: int, end: int, xs: Seq<Seq<u32>>)
    requires
        bytes::spans(b, off, end, layout::spell_bindings(xs)),
        forall|i: int| 0 <= i < xs.len() ==> (#[trigger] xs[i]).len() <= u32::MAX,
    ensures
        layout::many(layout::binding_item(b), off, xs.len() as int) == Ok::<
            (Seq<Seq<u32>>, int),
            layout::CanonFault,
        >((xs, end)),
{
    let item = layout::binding_item(b);
    let f = |x: Seq<u32>| layout::spell_counted(x);
    assert forall|k: int| 0 <= k < xs.len() implies #[trigger] reads(b, off, item, f, xs, k) by {
        assert forall|o: int, o2: int|
            #[trigger] bytes::spans(b, o, o2, f(xs[k])) && o2 == off + layout::spell_all(
                f,
                xs.take(k + 1),
            ).len() implies item(o, xs.take(k)) == Ok::<(Seq<u32>, int), layout::CanonFault>(
            (xs[k], o2),
        ) by {
            lemma_counted(b, o, o2, xs[k], "in-binding length", "in-binding entry");
        }
    }
    lemma_many(b, off, end, item, f, xs);
}

/// A `contract` body is read back.
proof fn lemma_contract(
    b: Seq<u8>,
    off: int,
    end: int,
    ts: Seq<types::TypeModel>,
    a: app::AppModel,
)
    requires
        a is Contract,
        bytes::spans(b, off, end, layout::spell_body(ts, a)),
        app_expressible(ts, a),
    ensures
        layout::p_contract(b, off, ts) == Ok::<(app::AppModel, int), layout::CanonFault>((a, end)),
{
    if let app::AppModel::Contract { inputs, output, extents, in_bindings, out_binding } = a {
        let dtype: Dtype = ts[output as int].dtype;
        let s1: Seq<u8> = layout::spell_dtype(dtype);
        let s2: Seq<u8> = layout::spell_counted(inputs);
        let s3: Seq<u8> = layout::le32(output);
        let t1: Seq<u8> = layout::spell_shape(extents);
        let t2: Seq<u8> = layout::spell_bindings(in_bindings);
        let t3: Seq<u8> = layout::spell_counted(out_binding);
        bytes::lemma_le(output as nat, 4);
        bytes::lemma_split(b, off, end, s1 + s2 + s3 + t1 + t2, t3);
        let o5: int = off + (s1 + s2 + s3 + t1 + t2).len();
        bytes::lemma_split(b, off, o5, s1 + s2 + s3 + t1, t2);
        let o4: int = off + (s1 + s2 + s3 + t1).len();
        bytes::lemma_split(b, off, o4, s1 + s2 + s3, t1);
        let o3: int = off + (s1 + s2 + s3).len();
        bytes::lemma_split(b, off, o3, s1 + s2, s3);
        let o2: int = off + (s1 + s2).len();
        bytes::lemma_split(b, off, o2, s1, s2);
        lemma_dtype(b, off, off + 4, dtype);
        lemma_counted(b, off + 4, o2, inputs, "contract input count", "contract input wire");
        lemma_u32(b, o2, o3, output, "contract output wire");
        lemma_words(b, o3, o4, extents, "contract extent count", "contract extent");
        lemma_bindings(b, o4, o5, in_bindings);
        lemma_counted(b, o5, end, out_binding, "out-binding length", "out-binding entry");
    }
}

/// A `cast` body is read back.
proof fn lemma_cast(b: Seq<u8>, off: int, end: int, ts: Seq<types::TypeModel>, a: app::AppModel)
    requires
        a is Cast,
        bytes::spans(b, off, end, layout::spell_body(ts, a)),
        app_expressible(ts, a),
        forall|i: int| 0 <= i < ts.len() ==> (#[trigger] ts[i]).shape.len() <= u32::MAX,
    ensures
        layout::p_cast(b, off, ts) == Ok::<(app::AppModel, int), layout::CanonFault>((a, end)),
{
    if let app::AppModel::Cast { inp, out } = a {
        let t: types::TypeModel = ts[inp as int];
        let u: types::TypeModel = ts[out as int];
        let s1: Seq<u8> = layout::spell_dtype(t.dtype);
        let s2: Seq<u8> = layout::spell_dtype(u.dtype);
        let s3: Seq<u8> = layout::spell_shape(t.shape);
        let s4: Seq<u8> = layout::le32(inp);
        let s5: Seq<u8> = layout::le32(out);
        bytes::lemma_le(inp as nat, 4);
        bytes::lemma_split(b, off, end, s1 + s2 + s3 + s4, s5);
        let o4: int = off + (s1 + s2 + s3 + s4).len();
        bytes::lemma_split(b, off, o4, s1 + s2 + s3, s4);
        let o3: int = off + (s1 + s2 + s3).len();
        bytes::lemma_split(b, off, o3, s1 + s2, s3);
        bytes::lemma_split(b, off, off + 8, s1, s2);
        lemma_dtype(b, off, off + 4, t.dtype);
        lemma_dtype(b, off + 4, off + 8, u.dtype);
        lemma_words(b, off + 8, o3, t.shape, "shape rank", "shape extent");
        lemma_u32(b, o3, o4, inp, "cast input wire");
        lemma_u32(b, o4, end, out, "cast output wire");
    }
}

/// A shape and two wires are read back.
proof fn lemma_shaped(
    b: Seq<u8>,
    off: int,
    end: int,
    shape: Seq<u64>,
    i: u32,
    x: u32,
    inp: &'static str,
    out: &'static str,
)
    requires
        bytes::spans(
            b,
            off,
            end,
            layout::spell_shape(shape) + layout::le32(i) + layout::le32(x),
        ),
        shape.len() <= u32::MAX,
    ensures
        layout::p_shaped(b, off, inp, out) == Ok::<((Seq<u64>, u32, u32), int), layout::CanonFault>(
            ((shape, i, x), end),
        ),
{
    let s1: Seq<u8> = layout::spell_shape(shape);
    let s2: Seq<u8> = layout::le32(i);
    bytes::lemma_split(b, off, end, s1 + s2, layout::le32(x));
    let o2: int = off + (s1 + s2).len();
    bytes::lemma_split(b, off, o2, s1, s2);
    let o1: int = off + s1.len();
    lemma_words(b, off, o1, shape, "shape rank", "shape extent");
    lemma_u32(b, o1, o2, i, inp);
    lemma_u32(b, o2, end, x, out);
}

/// A body of few parts is read back.
proof fn lemma_small_body(
    b: Seq<u8>,
    off: int,
    end: int,
    header: int,
    ts: Seq<types::TypeModel>,
    a: app::AppModel,
)
    requires
        bytes::spans(b, off, end, layout::spell_body(ts, a)),
        app_expressible(ts, a),
        !(a is Contract),
        !(a is Cast),
    ensures
        layout::p_body(b, off, a.tag(), header, ts) == Ok::<(app::AppModel, int), layout::CanonFault>(
            (a, end),
        ),
{
    match a {
        app::AppModel::Const { out, value } => {
            bytes::lemma_le(out as nat, 4);
            bytes::lemma_split(b, off, end, layout::le32(out), layout::spell_payload(value));
            lemma_u32(b, off, off + 4, out, "const output wire");
            lemma_payload(b, off + 4, end, value, ts[out as int]);
        },
        app::AppModel::Cell { complex_idx, inp, outs } => {
            let s1: Seq<u8> = layout::le32(complex_idx);
            let s2: Seq<u8> = layout::le32(inp);
            bytes::lemma_le(complex_idx as nat, 4);
            bytes::lemma_le(inp as nat, 4);
            bytes::lemma_split(b, off, end, s1 + s2, layout::spell_counted(outs));
            bytes::lemma_split(b, off, off + 8, s1, s2);
            lemma_u32(b, off, off + 4, complex_idx, "cell complex index");
            lemma_u32(b, off + 4, off + 8, inp, "cell input wire");
            lemma_counted(b, off + 8, end, outs, "cell output count", "cell output wire");
        },
        app::AppModel::Reshape { new_shape, inp, out } => {
            lemma_shaped(
                b,
                off,
                end,
                new_shape,
                inp,
                out,
                "reshape input wire",
                "reshape output wire",
            );
        },
        app::AppModel::Broadcast { to_shape, inp, out } => {
            lemma_shaped(
                b,
                off,
                end,
                to_shape,
                inp,
                out,
                "broadcast input wire",
                "broadcast output wire",
            );
        },
        app::AppModel::Copy { inp, outs } => {
            let n: u32 = outs.len() as u32;
            let s1: Seq<u8> = layout::le32(n);
            let s2: Seq<u8> = layout::le32(inp);
            bytes::lemma_le(n as nat, 4);
            bytes::lemma_le(inp as nat, 4);
            bytes::lemma_split(b, off, end, s1 + s2, layout::spell_wires(outs));
            bytes::lemma_split(b, off, off + 8, s1, s2);
            lemma_u32(b, off, off + 4, n, "copy output count");
            lemma_u32(b, off + 4, off + 8, inp, "copy input wire");
            lemma_wires(b, off + 8, end, outs, "copy output wire");
        },
        app::AppModel::Delete { inp } => {
            lemma_u32(b, off, end, inp, "delete input wire");
        },
        app::AppModel::Swap { in1, in2, out1, out2 } => {
            let s1: Seq<u8> = layout::le32(in1);
            let s2: Seq<u8> = layout::le32(in2);
            let s3: Seq<u8> = layout::le32(out1);
            bytes::lemma_le(in1 as nat, 4);
            bytes::lemma_le(in2 as nat, 4);
            bytes::lemma_le(out1 as nat, 4);
            bytes::lemma_split(b, off, end, s1 + s2 + s3, layout::le32(out2));
            bytes::lemma_split(b, off, off + 12, s1 + s2, s3);
            bytes::lemma_split(b, off, off + 8, s1, s2);
            lemma_u32(b, off, off + 4, in1, "swap in1");
            lemma_u32(b, off + 4, off + 8, in2, "swap in2");
            lemma_u32(b, off + 8, off + 12, out1, "swap out1");
            lemma_u32(b, off + 12, end, out2, "swap out2");
        },
        app::AppModel::Stack { inputs, output } => {
            let s1: Seq<u8> = layout::spell_counted(inputs);
            bytes::lemma_split(b, off, end, s1, layout::le32(output));
            lemma_counted(b, off, off + s1.len(), inputs, "stack input count", "stack input wire");
            lemma_u32(b, off + s1.len(), end, output, "stack output wire");
        },
        _ => {},
    }
}

/// A header is read back.
proof fn lemma_header(b: Seq<u8>, off: int, tag: u8)
    requires
        bytes::spans(b, off, off + 4, seq![tag, layout::ROUND_EXACT, 0u8, 0u8]),
    ensures
        layout::p_u8(b, off, "application tag") == Ok::<(u8, int), layout::CanonFault>(
            (tag, off + 1),
        ),
        layout::p_u8(b, off + 1, "rounding mode") == Ok::<(u8, int), layout::CanonFault>(
            (layout::ROUND_EXACT, off + 2),
        ),
        layout::p_u16(b, off + 2, "application pad") == Ok::<(u16, int), layout::CanonFault>(
            (0, off + 4),
        ),
{
    let head: Seq<u8> = b.subrange(off, off + 4);
    assert(head[0] == tag && head[1] == layout::ROUND_EXACT && head[2] == 0 && head[3] == 0);
    reveal_with_fuel(layout::le, 3);
    bytes::lemma_pow256();
    assert(b.subrange(off, off + 1) =~= layout::le(tag as nat, 1));
    assert(b.subrange(off + 1, off + 2) =~= layout::le(4, 1));
    assert(b.subrange(off + 2, off + 4) =~= layout::le(0, 2));
    lemma_word(b, off, off + 1, tag as nat, 1, "application tag");
    lemma_word(b, off + 1, off + 2, 4, 1, "rounding mode");
    lemma_word(b, off + 2, off + 4, 0, 2, "application pad");
}

/// An application is read back.
proof fn lemma_app(b: Seq<u8>, off: int, end: int, ts: Seq<types::TypeModel>, a: app::AppModel)
    requires
        bytes::spans(b, off, end, layout::spell_app(ts, a)),
        app_expressible(ts, a),
        forall|i: int| 0 <= i < ts.len() ==> (#[trigger] ts[i]).shape.len() <= u32::MAX,
    ensures
        layout::p_app(b, off, ts) == Ok::<(app::AppModel, int), layout::CanonFault>((a, end)),
{
    let head: Seq<u8> = seq![a.tag(), layout::ROUND_EXACT, 0u8, 0u8];
    bytes::lemma_split(b, off, end, head, layout::spell_body(ts, a));
    assert(head.len() == 4);
    lemma_header(b, off, a.tag());
    if a is Contract {
        lemma_contract(b, off + 4, end, ts, a);
    } else if a is Cast {
        lemma_cast(b, off + 4, end, ts, a);
    } else {
        lemma_small_body(b, off + 4, end, off, ts, a);
    }
}

/// Spelling alike item by item is spelling alike.
proof fn lemma_spelled_alike<T>(f: spec_fn(T) -> Seq<u8>, xs: Seq<T>, ys: Seq<T>)
    requires
        xs.len() == ys.len(),
        forall|i: int| 0 <= i < xs.len() ==> f(#[trigger] xs[i]) == f(ys[i]),
    ensures
        layout::spell_all(f, xs) == layout::spell_all(f, ys),
    decreases xs.len(),
{
    if xs.len() > 0 {
        assert(f(xs[xs.len() - 1]) == f(ys[xs.len() - 1]));
        assert forall|i: int| 0 <= i < xs.drop_last().len() implies f(
            #[trigger] xs.drop_last()[i],
        ) == f(ys.drop_last()[i]) by {
            assert(f(xs[i]) == f(ys[i]));
        }
        lemma_spelled_alike(f, xs.drop_last(), ys.drop_last());
    }
}

/// A complex is spelled as its canonical form is.
proof fn lemma_ordered_spelling(c: simplex::ComplexModel)
    ensures
        layout::spell_complex(ordered(c)) == layout::spell_complex(c),
        order::steps(ordered(c).simplices),
        complex_expressible(c) ==> complex_expressible(ordered(c)),
{
    order::law_arranged_sorts(c.simplices);
    order::law_arranged_once(c.simplices);
    if complex_expressible(c) {
        assert forall|i: int| 0 <= i < ordered(c).simplices.len() implies below(
            #[trigger] ordered(c).simplices[i],
            c.vertices.len(),
        ) by {
            let s: Set<u32> = ordered(c).simplices[i];
            broadcast use vstd::seq_lib::group_to_multiset_ensures;

            assert(ordered(c).simplices.contains(s));
            assert(ordered(c).simplices.to_multiset().count(s) > 0);
            assert(c.simplices.contains(s));
        }
    }
}

/// A graph and its canonical form have the same bytes.
pub proof fn law_canonical_form_same_bytes(net: graph::NetModel)
    ensures
        layout::spell(canonical_form(net)) == layout::spell(net),
{
    let f = |c: simplex::ComplexModel| layout::spell_complex(c);
    let form: Seq<simplex::ComplexModel> = canonical_form(net).complexes;
    assert forall|i: int| 0 <= i < net.complexes.len() implies f(#[trigger] net.complexes[i]) == f(
        form[i],
    ) by {
        lemma_ordered_spelling(net.complexes[i]);
    }
    lemma_spelled_alike(f, net.complexes, form);
}

/// The pool of a graph is read back in canonical form.
proof fn lemma_pool(b: Seq<u8>, off: int, end: int, cs: Seq<simplex::ComplexModel>)
    requires
        bytes::spans(b, off, end, layout::spell_pool(cs)),
        forall|i: int| 0 <= i < cs.len() ==> complex_expressible(#[trigger] cs[i]),
        forall|i: int| 0 <= i < cs.len() ==> order::steps((#[trigger] cs[i]).simplices),
        forall|i: int|
            0 <= i < cs.len() ==> roomy(
                #[trigger] cs[i],
                b.len() - off - layout::spell_pool(cs.take(i + 1)).len(),
            ),
    ensures
        layout::many(layout::complex_item(b), off, cs.len() as int) == Ok::<
            (Seq<simplex::ComplexModel>, int),
            layout::CanonFault,
        >((cs, end)),
{
    let item = layout::complex_item(b);
    let f = |c: simplex::ComplexModel| layout::spell_complex(c);
    assert forall|k: int| 0 <= k < cs.len() implies #[trigger] reads(b, off, item, f, cs, k) by {
        assert forall|o: int, o2: int|
            #[trigger] bytes::spans(b, o, o2, f(cs[k])) && o2 == off + layout::spell_all(
                f,
                cs.take(k + 1),
            ).len() implies item(o, cs.take(k)) == Ok::<
            (simplex::ComplexModel, int),
            layout::CanonFault,
        >((cs[k], o2)) by {
            assert(roomy(cs[k], b.len() - off - layout::spell_pool(cs.take(k + 1)).len()));
            lemma_complex(b, o, o2, cs[k]);
        }
    }
    lemma_many(b, off, end, item, f, cs);
}

/// The wire-type table is read back.
proof fn lemma_types(b: Seq<u8>, off: int, end: int, ts: Seq<types::TypeModel>)
    requires
        bytes::spans(b, off, end, layout::le32(ts.len() as u32) + layout::spell_types(ts)),
        ts.len() <= u32::MAX,
        forall|i: int| 0 <= i < ts.len() ==> (#[trigger] ts[i]).shape.len() <= u32::MAX,
    ensures
        layout::p_types(b, off) == Ok::<(Seq<types::TypeModel>, int), layout::CanonFault>(
            (ts, end),
        ),
{
    let n: u32 = ts.len() as u32;
    bytes::lemma_le(n as nat, 4);
    bytes::lemma_split(b, off, end, layout::le32(n), layout::spell_types(ts));
    lemma_u32(b, off, off + 4, n, "wire-type count");
    let at: int = off + 4;
    let item = layout::type_item(b);
    let f = |t: types::TypeModel| layout::spell_type(t);
    assert forall|k: int| 0 <= k < ts.len() implies #[trigger] reads(b, at, item, f, ts, k) by {
        assert forall|o: int, o2: int|
            #[trigger] bytes::spans(b, o, o2, f(ts[k])) && o2 == at + layout::spell_all(
                f,
                ts.take(k + 1),
            ).len() implies item(o, ts.take(k)) == Ok::<
            (types::TypeModel, int),
            layout::CanonFault,
        >((ts[k], o2)) by {
            lemma_type(b, o, o2, ts[k]);
        }
    }
    lemma_many(b, at, end, item, f, ts);
}

/// The applications are read back.
proof fn lemma_apps(
    b: Seq<u8>,
    off: int,
    end: int,
    ts: Seq<types::TypeModel>,
    xs: Seq<app::AppModel>,
)
    requires
        bytes::spans(b, off, end, layout::le32(xs.len() as u32) + layout::spell_apps(ts, xs)),
        xs.len() <= u32::MAX,
        forall|i: int| 0 <= i < xs.len() ==> app_expressible(ts, #[trigger] xs[i]),
        forall|i: int| 0 <= i < ts.len() ==> (#[trigger] ts[i]).shape.len() <= u32::MAX,
    ensures
        layout::p_apps(b, off, ts) == Ok::<(Seq<app::AppModel>, int), layout::CanonFault>(
            (xs, end),
        ),
{
    let n: u32 = xs.len() as u32;
    bytes::lemma_le(n as nat, 4);
    bytes::lemma_split(b, off, end, layout::le32(n), layout::spell_apps(ts, xs));
    lemma_u32(b, off, off + 4, n, "application count");
    let at: int = off + 4;
    let item = layout::app_item(b, ts);
    let f = |a: app::AppModel| layout::spell_app(ts, a);
    assert forall|k: int| 0 <= k < xs.len() implies #[trigger] reads(b, at, item, f, xs, k) by {
        assert forall|o: int, o2: int|
            #[trigger] bytes::spans(b, o, o2, f(xs[k])) && o2 == at + layout::spell_all(
                f,
                xs.take(k + 1),
            ).len() implies item(o, xs.take(k)) == Ok::<(app::AppModel, int), layout::CanonFault>(
            (xs[k], o2),
        ) by {
            lemma_app(b, o, o2, ts, xs[k]);
        }
    }
    lemma_many(b, at, end, item, f, xs);
}

/// The counted pool of a graph is read back.
proof fn lemma_counted_pool(b: Seq<u8>, off: int, end: int, cs: Seq<simplex::ComplexModel>)
    requires
        bytes::spans(b, off, end, layout::le32(cs.len() as u32) + layout::spell_pool(cs)),
        cs.len() <= u32::MAX,
        forall|i: int| 0 <= i < cs.len() ==> complex_expressible(#[trigger] cs[i]),
        forall|i: int| 0 <= i < cs.len() ==> order::steps((#[trigger] cs[i]).simplices),
        forall|i: int|
            0 <= i < cs.len() ==> roomy(
                #[trigger] cs[i],
                b.len() - (off + 4) - layout::spell_pool(cs.take(i + 1)).len(),
            ),
    ensures
        layout::p_pool(b, off) == Ok::<(Seq<simplex::ComplexModel>, int), layout::CanonFault>(
            (cs, end),
        ),
{
    let n: u32 = cs.len() as u32;
    bytes::lemma_le(n as nat, 4);
    bytes::lemma_split(b, off, end, layout::le32(n), layout::spell_pool(cs));
    lemma_u32(b, off, off + 4, n, "complex count");
    lemma_pool(b, off + 4, end, cs);
}

/// The interface of a graph is read back.
proof fn lemma_interface(b: Seq<u8>, off: int, end: int, ins: Seq<u32>, outs: Seq<u32>)
    requires
        bytes::spans(b, off, end, layout::spell_counted(ins) + layout::spell_counted(outs)),
        ins.len() <= u32::MAX,
        outs.len() <= u32::MAX,
    ensures
        layout::p_interface(b, off) == Ok::<((Seq<u32>, Seq<u32>), int), layout::CanonFault>(
            ((ins, outs), end),
        ),
{
    let s: Seq<u8> = layout::spell_counted(ins);
    bytes::lemma_split(b, off, end, s, layout::spell_counted(outs));
    lemma_counted(b, off, off + s.len(), ins, "graph input count", "graph input wire");
    lemma_counted(b, off + s.len(), end, outs, "graph output count", "graph output wire");
}

/// Five parts that follow one another.
proof fn lemma_five(b: Seq<u8>, s0: Seq<u8>, s1: Seq<u8>, s2: Seq<u8>, s3: Seq<u8>, s4: Seq<u8>)
    requires
        b == s0 + s1 + s2 + s3 + s4,
    ensures
        ({
            let o1 = (s0.len() + s1.len()) as int;
            let o2 = (o1 + s2.len()) as int;
            let o3 = (o2 + s3.len()) as int;
            &&& bytes::spans(b, 0, s0.len() as int, s0)
            &&& bytes::spans(b, s0.len() as int, o1, s1)
            &&& bytes::spans(b, o1, o2, s2)
            &&& bytes::spans(b, o2, o3, s3)
            &&& bytes::spans(b, o3, b.len() as int, s4)
        }),
{
    let end: int = b.len() as int;
    assert(b.subrange(0, end) =~= b);
    bytes::lemma_split(b, 0, end, s0 + s1 + s2 + s3, s4);
    let o3: int = (s0 + s1 + s2 + s3).len() as int;
    bytes::lemma_split(b, 0, o3, s0 + s1 + s2, s3);
    let o2: int = (s0 + s1 + s2).len() as int;
    bytes::lemma_split(b, 0, o2, s0 + s1, s2);
    let o1: int = (s0 + s1).len() as int;
    bytes::lemma_split(b, 0, o1, s0, s1);
}

/// A graph in canonical form is read back from its bytes.
proof fn lemma_reads_back(net: graph::NetModel)
    requires
        expressible(net),
        forall|i: int|
            0 <= i < net.complexes.len() ==> order::steps((#[trigger] net.complexes[i]).simplices),
    ensures
        layout::parse(layout::spell(net)) == Ok::<graph::NetModel, layout::CanonFault>(net),
{
    let b: Seq<u8> = layout::spell(net);
    let ts: Seq<types::TypeModel> = net.wire_types;
    let cs: Seq<simplex::ComplexModel> = net.complexes;
    let s0: Seq<u8> = layout::magic();
    let s1: Seq<u8> = layout::le32(ts.len() as u32) + layout::spell_types(ts);
    let s2: Seq<u8> = layout::le32(cs.len() as u32) + layout::spell_pool(cs);
    let s3: Seq<u8> = layout::le32(net.apps.len() as u32) + layout::spell_apps(ts, net.apps);
    let s4: Seq<u8> = layout::spell_counted(net.graph_inputs) + layout::spell_counted(
        net.graph_outputs,
    );
    assert(b == s0 + s1 + s2 + s3 + s4) by {
        faithful::lemma_spelling(net);
        faithful::lemma_regroup(
            s0 + s1 + s2 + s3,
            layout::spell_counted(net.graph_inputs),
            layout::spell_counted(net.graph_outputs),
        );
    }
    lemma_five(b, s0, s1, s2, s3, s4);
    assert(s0.len() == 8);
    bytes::lemma_le(ts.len(), 4);
    lemma_parts_read(net, b, s1.len() as int, s2.len() as int, s3.len() as int);
}

/// A graph whose five parts lie behind one another is read.
#[verifier::rlimit(40)]
proof fn lemma_parts_read(net: graph::NetModel, b: Seq<u8>, n1: int, n2: int, n3: int)
    requires
        expressible(net),
        forall|i: int|
            0 <= i < net.complexes.len() ==> order::steps((#[trigger] net.complexes[i]).simplices),
        b == layout::spell(net),
        bytes::spans(b, 0, 8, layout::magic()),
        n1 == 4 + layout::spell_types(net.wire_types).len(),
        bytes::spans(
            b,
            8,
            8 + n1,
            layout::le32(net.wire_types.len() as u32) + layout::spell_types(net.wire_types),
        ),
        bytes::spans(
            b,
            8 + n1,
            8 + n1 + n2,
            layout::le32(net.complexes.len() as u32) + layout::spell_pool(net.complexes),
        ),
        bytes::spans(
            b,
            8 + n1 + n2,
            8 + n1 + n2 + n3,
            layout::le32(net.apps.len() as u32) + layout::spell_apps(net.wire_types, net.apps),
        ),
        bytes::spans(
            b,
            8 + n1 + n2 + n3,
            b.len() as int,
            layout::spell_counted(net.graph_inputs) + layout::spell_counted(net.graph_outputs),
        ),
    ensures
        layout::parse(b) == Ok::<graph::NetModel, layout::CanonFault>(net),
{
    let ts: Seq<types::TypeModel> = net.wire_types;
    let cs: Seq<simplex::ComplexModel> = net.complexes;
    let o1: int = 8 + n1;
    let o2: int = o1 + n2;
    let o3: int = o2 + n3;
    lemma_types(b, 8, o1, ts);
    assert forall|i: int| 0 <= i < cs.len() implies roomy(
        #[trigger] cs[i],
        b.len() - (o1 + 4) - layout::spell_pool(cs.take(i + 1)).len(),
    ) by {
        assert(roomy(cs[i], behind(net, i)));
    }
    lemma_counted_pool(b, o1, o2, cs);
    lemma_apps(b, o2, o3, ts, net.apps);
    lemma_interface(b, o3, b.len() as int, net.graph_inputs, net.graph_outputs);
}

/// A graph that can be expressed is read back from its canonical bytes, its simplices in
/// canonical order.
pub proof fn law_encode_decode(net: graph::NetModel)
    requires
        expressible(net),
    ensures
        layout::parse(layout::spell(net)) == Ok::<graph::NetModel, layout::CanonFault>(
            canonical_form(net),
        ),
{
    let form: graph::NetModel = canonical_form(net);
    law_canonical_form_same_bytes(net);
    assert forall|i: int| 0 <= i < form.complexes.len() implies complex_expressible(
        #[trigger] form.complexes[i],
    ) && order::steps(form.complexes[i].simplices) by {
        assert(complex_expressible(net.complexes[i]));
        lemma_ordered_spelling(net.complexes[i]);
    }
    assert forall|i: int| 0 <= i < form.complexes.len() implies roomy(
        #[trigger] form.complexes[i],
        behind(form, i),
    ) by {
        let f = |c: simplex::ComplexModel| layout::spell_complex(c);
        assert(roomy(net.complexes[i], behind(net, i)));
        lemma_ordered_spelling(net.complexes[i]);
        order::law_arranged_sorts(net.complexes[i].simplices);
        let front: Seq<simplex::ComplexModel> = net.complexes.take(i + 1);
        let form_front: Seq<simplex::ComplexModel> = form.complexes.take(i + 1);
        assert forall|j: int| 0 <= j < front.len() implies f(#[trigger] front[j]) == f(
            form_front[j],
        ) by {
            lemma_ordered_spelling(net.complexes[j]);
        }
        lemma_spelled_alike(f, front, form_front);
    }
    lemma_reads_back(form);
}

/// Graphs with the same canonical bytes have the same canonical form.
pub proof fn law_bytes_determine_graph(x: graph::NetModel, y: graph::NetModel)
    requires
        expressible(x),
        expressible(y),
        layout::spell(x) == layout::spell(y),
    ensures
        canonical_form(x) == canonical_form(y),
{
    law_encode_decode(x);
    law_encode_decode(y);
}

} // verus!
