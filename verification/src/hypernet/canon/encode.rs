//! Writing a graph.

use super::super::app;
use super::super::app::{App, ConstPayload, Wire};
use super::super::graph;
use super::super::graph::Hypernet;
use super::super::scalar;
use super::super::scalar::WitRat;
use super::super::simplex;
use super::super::simplex::{SimpC, VSet};
use super::super::types;
use super::super::types::TensorType;
use super::layout;
use super::layout::{MAGIC, ROUND_EXACT};
use super::order;
use super::order::arrange;
use super::refusal::CanonRefusal;
use super::writers;
use super::writers::{
    w_bitset, w_bytes, w_counted, w_dtype, w_rationals, w_set, w_shape, w_type, w_u32, w_wires,
};
use vstd::prelude::*;

verus! {

broadcast use {
    vstd::std_specs::btree::group_btree_axioms,
    vstd::laws_cmp::group_laws_cmp,
    vstd::laws_eq::group_laws_eq,
};

/// The vertices of a complex; coordinates that are not in lowest terms are refused.
fn w_vertices(out: &mut Vec<u8>, vs: &Vec<Vec<WitRat>>) -> (r: Result<(), CanonRefusal>)
    ensures
        match r {
            Ok(_) => (forall|i: int|
                0 <= i < vs@.len() ==> layout::all_canonical(#[trigger] simplex::lists(vs@)[i]))
                && final(out)@ == old(out)@ + layout::spell_vertices(simplex::lists(vs@)),
            Err(e) => (exists|i: int|
                0 <= i < vs@.len() && !layout::all_canonical(#[trigger] simplex::lists(vs@)[i]))
                && e == CanonRefusal::EncodeNonCanonicalRational,
        },
{
    let ghost start: Seq<u8> = out@;
    let ghost all: Seq<Seq<scalar::Ratio>> = simplex::lists(vs@);
    let ghost f = |v: Seq<scalar::Ratio>| layout::spell_rationals(v);
    let mut i: usize = 0;
    proof {
        writers::lemma_spell_none(f, all, start);
    }
    while i < vs.len()
        invariant
            f == |v: Seq<scalar::Ratio>| layout::spell_rationals(v),
            all == simplex::lists(vs@),
            i <= vs@.len(),
            forall|j: int| 0 <= j < i ==> layout::all_canonical(#[trigger] all[j]),
            out@ == start + layout::spell_all(f, all.take(i as int)),
        decreases vs@.len() - i,
    {
        assert(all[i as int] == types::views(vs@[i as int]@));
        w_rationals(out, &vs[i])?;
        proof {
            writers::lemma_spell_next(f, all, i as int);
            writers::lemma_append(
                start,
                layout::spell_all(f, all.take(i as int)),
                layout::spell_rationals(all[i as int]),
            );
        }
        i = i + 1;
    }
    assert(all.take(i as int) =~= all);
    Ok(())
}

/// Sets among `n` vertices, from their members.
fn w_sets(out: &mut Vec<u8>, lists: &Vec<Vec<u32>>, n: u32)
    requires
        order::all_ascend(lists@),
        forall|i: int| 0 <= i < lists@.len() ==> layout::fits(#[trigger] order::sets(lists@)[i], n),
    ensures
        final(out)@ == old(out)@ + layout::spell_sets(order::sets(lists@), n),
{
    let ghost start: Seq<u8> = out@;
    let ghost all: Seq<Set<u32>> = order::sets(lists@);
    let ghost f = |s: Set<u32>| layout::spell_set(s, n);
    let mut i: usize = 0;
    proof {
        writers::lemma_spell_none(f, all, start);
    }
    while i < lists.len()
        invariant
            f == |s: Set<u32>| layout::spell_set(s, n),
            all == order::sets(lists@),
            order::all_ascend(lists@),
            forall|i: int| 0 <= i < lists@.len() ==> layout::fits(#[trigger] all[i], n),
            i <= lists@.len(),
            out@ == start + layout::spell_all(f, all.take(i as int)),
        decreases lists@.len() - i,
    {
        assert(all[i as int] == lists@[i as int]@.to_set());
        w_bitset(out, &lists[i], n);
        proof {
            writers::lemma_spell_next(f, all, i as int);
            writers::lemma_append(
                start,
                layout::spell_all(f, all.take(i as int)),
                layout::spell_set(all[i as int], n),
            );
        }
        i = i + 1;
    }
    assert(all.take(i as int) =~= all);
}

/// Cells among `n` vertices.
fn w_cells(out: &mut Vec<u8>, cells: &Vec<(VSet, VSet)>, n: u32)
    requires
        forall|i: int|
            0 <= i < cells@.len() ==> layout::fits((#[trigger] types::views(cells@)[i]).0, n),
        forall|i: int|
            0 <= i < cells@.len() ==> layout::fits((#[trigger] types::views(cells@)[i]).1, n),
    ensures
        final(out)@ == old(out)@ + layout::spell_cells(types::views(cells@), n),
{
    let ghost start: Seq<u8> = out@;
    let ghost all: Seq<(Set<u32>, Set<u32>)> = types::views(cells@);
    let ghost f = |c: (Set<u32>, Set<u32>)| layout::spell_cell(c, n);
    let mut i: usize = 0;
    proof {
        writers::lemma_spell_none(f, all, start);
    }
    while i < cells.len()
        invariant
            f == |c: (Set<u32>, Set<u32>)| layout::spell_cell(c, n),
            all == types::views(cells@),
            forall|i: int| 0 <= i < cells@.len() ==> layout::fits((#[trigger] all[i]).0, n),
            forall|i: int| 0 <= i < cells@.len() ==> layout::fits((#[trigger] all[i]).1, n),
            i <= cells@.len(),
            out@ == start + layout::spell_all(f, all.take(i as int)),
        decreases cells@.len() - i,
    {
        let ghost before: Seq<u8> = out@;
        assert(all[i as int] == (cells@[i as int].0@, cells@[i as int].1@));
        w_set(out, &cells[i].0, n);
        w_set(out, &cells[i].1, n);
        proof {
            let s: Seq<u8> = layout::spell_set(all[i as int].0, n);
            let t: Seq<u8> = layout::spell_set(all[i as int].1, n);
            writers::lemma_append(before, s, t);
            writers::lemma_spell_next(f, all, i as int);
            writers::lemma_append(start, layout::spell_all(f, all.take(i as int)), s + t);
        }
        i = i + 1;
    }
    assert(all.take(i as int) =~= all);
}

/// Arranging keeps what holds of each set.
proof fn lemma_arranged_fit(xs: Seq<Set<u32>>, n: u32)
    requires
        forall|i: int| 0 <= i < xs.len() ==> layout::fits(#[trigger] xs[i], n),
    ensures
        forall|i: int|
            0 <= i < xs.len() ==> layout::fits(#[trigger] layout::arranged(xs)[i], n),
{
    let ys: Seq<Set<u32>> = layout::arranged(xs);
    order::law_arranged_sorts(xs);
    assert forall|i: int| 0 <= i < xs.len() implies layout::fits(#[trigger] ys[i], n) by {
        broadcast use vstd::seq_lib::group_to_multiset_ensures;

        assert(ys.contains(ys[i]));
        assert(ys.to_multiset().count(ys[i]) > 0);
        assert(xs.contains(ys[i]));
    }
}

/// A complex; coordinates that are not in lowest terms are refused.
fn w_complex(out: &mut Vec<u8>, c: &SimpC) -> (r: Result<(), CanonRefusal>)
    requires
        layout::complex_canonical(c@) ==> layout::complex_fits(c@),
    ensures
        match r {
            Ok(_) => layout::complex_canonical(c@) && final(out)@ == old(out)@
                + layout::spell_complex(c@),
            Err(e) => !layout::complex_canonical(c@) && e
                == CanonRefusal::EncodeNonCanonicalRational,
        },
{
    let ghost start: Seq<u8> = out@;
    let n: u32 = c.vertices.len() as u32;
    w_u32(out, n);
    w_u32(out, c.amb_dim);
    w_vertices(out, &c.vertices)?;
    let lists: Vec<Vec<u32>> = arrange(&c.simplices);
    proof {
        lemma_arranged_fit(c@.simplices, n);
    }
    w_u32(out, lists.len() as u32);
    w_sets(out, &lists, n);
    w_u32(out, c.cells.len() as u32);
    proof {
        assert(c@.cells == types::views(c.cells@));
        assert forall|i: int| 0 <= i < c.cells@.len() implies layout::fits(
            (#[trigger] types::views(c.cells@)[i]).0,
            n,
        ) && layout::fits(types::views(c.cells@)[i].1, n) by {
            assert(layout::fits(c@.cells[i].0, n));
        }
    }
    w_cells(out, &c.cells, n);
    proof {
        let m: simplex::ComplexModel = c@;
        let s1: Seq<u8> = layout::le32(n);
        let s2: Seq<u8> = layout::le32(m.amb_dim);
        let s3: Seq<u8> = layout::spell_vertices(m.vertices);
        let s4: Seq<u8> = layout::le32(m.simplices.len() as u32);
        let s5: Seq<u8> = layout::spell_sets(layout::arranged(m.simplices), n);
        let s6: Seq<u8> = layout::le32(m.cells.len() as u32);
        let s7: Seq<u8> = layout::spell_cells(m.cells, n);
        writers::lemma_append(start, s1, s2);
        writers::lemma_append(start, s1 + s2, s3);
        writers::lemma_append(start, s1 + s2 + s3, s4);
        writers::lemma_append(start, s1 + s2 + s3 + s4, s5);
        writers::lemma_append(start, s1 + s2 + s3 + s4 + s5, s6);
        writers::lemma_append(start, s1 + s2 + s3 + s4 + s5 + s6, s7);
    }
    Ok(())
}

/// The places of a list that are set.
fn marked(bits: &Vec<bool>) -> (r: VSet)
    ensures
        r@ == layout::marked(bits@),
{
    let mut r: VSet = VSet::new();
    let mut i: usize = 0;
    while i < bits.len()
        invariant
            i <= bits@.len(),
            forall|w: u32| #[trigger]
                r@.contains(w) <==> exists|j: int|
                    0 <= j < i && #[trigger] bits@[j] && j as u32 == w,
        decreases bits@.len() - i,
    {
        let ghost had: Set<u32> = r@;
        if bits[i] {
            r.insert(i as u32);
        }
        proof {
            assert forall|w: u32| #[trigger] r@.contains(w) <==> exists|j: int|
                0 <= j < i + 1 && #[trigger] bits@[j] && j as u32 == w by {
                if had.contains(w) {
                    let j: int = choose|j: int| 0 <= j < i && #[trigger] bits@[j] && j as u32 == w;
                    assert(bits@[j]);
                }
                if bits@[i as int] && i as u32 == w {
                    assert(bits@[i as int] && (i as int) as u32 == w);
                }
            }
        }
        i = i + 1;
    }
    assert(r@ =~= layout::marked(bits@));
    r
}

/// A literal; rationals that are not in lowest terms are refused.
fn w_payload(out: &mut Vec<u8>, p: &ConstPayload) -> (r: Result<(), CanonRefusal>)
    requires
        p@ matches app::PayloadModel::Bits(bits) ==> layout::fits(
            layout::marked(bits),
            bits.len() as u32,
        ),
    ensures
        match r {
            Ok(_) => (p@ matches app::PayloadModel::Rat(qs) ==> layout::all_canonical(qs))
                && final(out)@ == old(out)@ + layout::spell_payload(p@),
            Err(e) => (p@ matches app::PayloadModel::Rat(qs) && !layout::all_canonical(qs)) && e
                == CanonRefusal::EncodeNonCanonicalRational,
        },
{
    match p {
        ConstPayload::Rat(qs) => w_rationals(out, qs),
        ConstPayload::Bits(bits) => {
            let set: VSet = marked(bits);
            w_set(out, &set, bits.len() as u32);
            Ok(())
        },
    }
}

/// The bindings of a contraction.
fn w_bindings(out: &mut Vec<u8>, bs: &Vec<Vec<u32>>)
    ensures
        final(out)@ == old(out)@ + layout::spell_bindings(types::views(bs@)),
{
    let ghost start: Seq<u8> = out@;
    let ghost all: Seq<Seq<u32>> = types::views(bs@);
    let ghost f = |b: Seq<u32>| layout::spell_counted(b);
    let mut i: usize = 0;
    proof {
        writers::lemma_spell_none(f, all, start);
    }
    while i < bs.len()
        invariant
            f == |b: Seq<u32>| layout::spell_counted(b),
            all == types::views(bs@),
            i <= bs@.len(),
            out@ == start + layout::spell_all(f, all.take(i as int)),
        decreases bs@.len() - i,
    {
        assert(all[i as int] == bs@[i as int]@);
        w_counted(out, &bs[i]);
        proof {
            writers::lemma_spell_next(f, all, i as int);
            writers::lemma_append(
                start,
                layout::spell_all(f, all.take(i as int)),
                layout::spell_counted(all[i as int]),
            );
        }
        i = i + 1;
    }
    assert(all.take(i as int) =~= all);
}

/// The type of a wire that application `idx` names; a wire without one is refused.
fn named_type<'a>(net: &'a Hypernet, w: Wire, idx: u32) -> (r: Result<&'a TensorType, CanonRefusal>)
    ensures
        match r {
            Ok(t) => net@.knows(w) && t@ == net@.wire_types[w as int],
            Err(e) => !net@.knows(w) && e@ == (layout::CanonFault::EncodeWireOutOfRange {
                app: idx,
                wire: w,
                table_len: net@.wire_types.len() as u32,
            }),
        },
{
    match net.wtype(w) {
        Some(t) => Ok(t),
        None => Err(
            CanonRefusal::EncodeWireOutOfRange {
                app: idx,
                wire: w,
                table_len: net.wire_types.len() as u32,
            },
        ),
    }
}

/// The body of a `contract` application.
fn w_contract(
    out: &mut Vec<u8>,
    t: &TensorType,
    inputs: &Vec<Wire>,
    output: Wire,
    extents: &Vec<u64>,
    in_bindings: &Vec<Vec<u32>>,
    out_binding: &Vec<u32>,
)
    ensures
        final(out)@ == old(out)@ + (layout::spell_dtype(t@.dtype) + layout::spell_counted(inputs@)
            + layout::le32(output) + layout::spell_shape(extents@) + layout::spell_bindings(
            types::views(in_bindings@),
        ) + layout::spell_counted(out_binding@)),
{
    let ghost start: Seq<u8> = out@;
    w_dtype(out, t.dtype);
    w_counted(out, inputs);
    w_u32(out, output);
    w_shape(out, extents);
    w_bindings(out, in_bindings);
    w_counted(out, out_binding);
    proof {
        let s1: Seq<u8> = layout::spell_dtype(t@.dtype);
        let s2: Seq<u8> = layout::spell_counted(inputs@);
        let s3: Seq<u8> = layout::le32(output);
        let s4: Seq<u8> = layout::spell_shape(extents@);
        let s5: Seq<u8> = layout::spell_bindings(types::views(in_bindings@));
        let s6: Seq<u8> = layout::spell_counted(out_binding@);
        writers::lemma_append(start, s1, s2);
        writers::lemma_append(start, s1 + s2, s3);
        writers::lemma_append(start, s1 + s2 + s3, s4);
        writers::lemma_append(start, s1 + s2 + s3 + s4, s5);
        writers::lemma_append(start, s1 + s2 + s3 + s4 + s5, s6);
    }
}

/// The body of a `cast` application.
fn w_cast(out: &mut Vec<u8>, t: &TensorType, u: &TensorType, inp: Wire, o: Wire)
    ensures
        final(out)@ == old(out)@ + (layout::spell_dtype(t@.dtype) + layout::spell_dtype(u@.dtype)
            + layout::spell_shape(t@.shape) + layout::le32(inp) + layout::le32(o)),
{
    let ghost start: Seq<u8> = out@;
    w_dtype(out, t.dtype);
    w_dtype(out, u.dtype);
    w_shape(out, &t.shape);
    w_u32(out, inp);
    w_u32(out, o);
    proof {
        let s1: Seq<u8> = layout::spell_dtype(t@.dtype);
        let s2: Seq<u8> = layout::spell_dtype(u@.dtype);
        let s3: Seq<u8> = layout::spell_shape(t@.shape);
        let s4: Seq<u8> = layout::le32(inp);
        writers::lemma_append(start, s1, s2);
        writers::lemma_append(start, s1 + s2, s3);
        writers::lemma_append(start, s1 + s2 + s3, s4);
        writers::lemma_append(start, s1 + s2 + s3 + s4, layout::le32(o));
    }
}

/// A shape and two wires.
fn w_shaped(out: &mut Vec<u8>, shape: &Vec<u64>, inp: Wire, o: Wire)
    ensures
        final(out)@ == old(out)@ + (layout::spell_shape(shape@) + layout::le32(inp) + layout::le32(
            o,
        )),
{
    let ghost start: Seq<u8> = out@;
    w_shape(out, shape);
    w_u32(out, inp);
    w_u32(out, o);
    proof {
        let s1: Seq<u8> = layout::spell_shape(shape@);
        let s2: Seq<u8> = layout::le32(inp);
        writers::lemma_append(start, s1, s2);
        writers::lemma_append(start, s1 + s2, layout::le32(o));
    }
}

/// What follows the header of application `idx`.
fn w_body(out: &mut Vec<u8>, net: &Hypernet, idx: u32, a: &App) -> (r: Result<(), CanonRefusal>)
    requires
        layout::app_refusal(net@, idx, a@) is None ==> layout::payload_fits(a@),
    ensures
        match r {
            Ok(_) => layout::app_refusal(net@, idx, a@) is None && final(out)@ == old(out)@
                + layout::spell_body(net@.wire_types, a@),
            Err(e) => layout::app_refusal(net@, idx, a@) == Some(e@),
        },
{
    let ghost start: Seq<u8> = out@;
    match a {
        App::Const { out: o, value } => {
            w_u32(out, *o);
            w_payload(out, value)?;
            proof {
                writers::lemma_append(start, layout::le32(*o), layout::spell_payload(value@));
            }
        },
        App::Contract { inputs, output, extents, in_bindings, out_binding } => {
            let t: &TensorType = named_type(net, *output, idx)?;
            w_contract(out, t, inputs, *output, extents, in_bindings, out_binding);
        },
        App::Cast { inp, out: o } => {
            let t: &TensorType = named_type(net, *inp, idx)?;
            let u: &TensorType = named_type(net, *o, idx)?;
            w_cast(out, t, u, *inp, *o);
        },
        App::Cell { complex_idx, inp, outs } => {
            w_u32(out, *complex_idx);
            w_u32(out, *inp);
            w_counted(out, outs);
            proof {
                let s1: Seq<u8> = layout::le32(*complex_idx);
                let s2: Seq<u8> = layout::le32(*inp);
                writers::lemma_append(start, s1, s2);
                writers::lemma_append(start, s1 + s2, layout::spell_counted(outs@));
            }
        },
        App::Reshape { new_shape, inp, out: o } => {
            w_shaped(out, new_shape, *inp, *o);
        },
        App::Broadcast { to_shape, inp, out: o } => {
            w_shaped(out, to_shape, *inp, *o);
        },
        App::Copy { inp, outs } => {
            w_u32(out, outs.len() as u32);
            w_u32(out, *inp);
            w_wires(out, outs);
            proof {
                let s1: Seq<u8> = layout::le32(outs@.len() as u32);
                let s2: Seq<u8> = layout::le32(*inp);
                writers::lemma_append(start, s1, s2);
                writers::lemma_append(start, s1 + s2, layout::spell_wires(outs@));
            }
        },
        App::Delete { inp } => {
            w_u32(out, *inp);
        },
        App::Swap { in1, in2, out1, out2 } => {
            w_u32(out, *in1);
            w_u32(out, *in2);
            w_u32(out, *out1);
            w_u32(out, *out2);
            proof {
                let s1: Seq<u8> = layout::le32(*in1);
                let s2: Seq<u8> = layout::le32(*in2);
                let s3: Seq<u8> = layout::le32(*out1);
                writers::lemma_append(start, s1, s2);
                writers::lemma_append(start, s1 + s2, s3);
                writers::lemma_append(start, s1 + s2 + s3, layout::le32(*out2));
            }
        },
        App::Stack { inputs, output } => {
            w_counted(out, inputs);
            w_u32(out, *output);
            proof {
                writers::lemma_append(start, layout::spell_counted(inputs@), layout::le32(*output));
            }
        },
    }
    Ok(())
}

/// Application `idx`.
fn w_app(out: &mut Vec<u8>, net: &Hypernet, idx: u32, a: &App) -> (r: Result<(), CanonRefusal>)
    requires
        layout::app_refusal(net@, idx, a@) is None ==> layout::payload_fits(a@),
    ensures
        match r {
            Ok(_) => layout::app_refusal(net@, idx, a@) is None && final(out)@ == old(out)@
                + layout::spell_app(net@.wire_types, a@),
            Err(e) => layout::app_refusal(net@, idx, a@) == Some(e@),
        },
{
    let ghost start: Seq<u8> = out@;
    out.push(a.tag());
    out.push(ROUND_EXACT);
    out.push(0);
    out.push(0);
    let ghost head: Seq<u8> = seq![a@.tag(), ROUND_EXACT, 0u8, 0u8];
    assert(out@ =~= start + head);
    w_body(out, net, idx, a)?;
    proof {
        writers::lemma_append(start, head, layout::spell_body(net@.wire_types, a@));
    }
    Ok(())
}

/// The wire-type table.
fn w_types(out: &mut Vec<u8>, ts: &Vec<TensorType>)
    ensures
        final(out)@ == old(out)@ + layout::spell_types(types::views(ts@)),
{
    let ghost start: Seq<u8> = out@;
    let ghost all: Seq<types::TypeModel> = types::views(ts@);
    let ghost f = |t: types::TypeModel| layout::spell_type(t);
    let mut i: usize = 0;
    proof {
        writers::lemma_spell_none(f, all, start);
    }
    while i < ts.len()
        invariant
            f == |t: types::TypeModel| layout::spell_type(t),
            all == types::views(ts@),
            i <= ts@.len(),
            out@ == start + layout::spell_all(f, all.take(i as int)),
        decreases ts@.len() - i,
    {
        assert(all[i as int] == ts@[i as int]@);
        w_type(out, &ts[i]);
        proof {
            writers::lemma_spell_next(f, all, i as int);
            writers::lemma_append(
                start,
                layout::spell_all(f, all.take(i as int)),
                layout::spell_type(all[i as int]),
            );
        }
        i = i + 1;
    }
    assert(all.take(i as int) =~= all);
}

/// The complex that is reached has a place for its members.
proof fn lemma_complex_fits(net: graph::NetModel, i: int)
    requires
        layout::writable(net),
        0 <= i < net.complexes.len(),
        forall|j: int| 0 <= j < i ==> layout::complex_canonical(#[trigger] net.complexes[j]),
    ensures
        layout::complex_canonical(net.complexes[i]) ==> layout::complex_fits(net.complexes[i]),
{
    let c: simplex::ComplexModel = net.complexes[i];
    if layout::complex_canonical(c) {
        assert forall|j: int| 0 <= j <= i implies layout::complex_canonical(
            #[trigger] net.complexes[j],
        ) by {
            if j == i {
                assert(net.complexes[j] == c);
            }
        }
    }
}

/// The complex pool; coordinates that are not in lowest terms are refused.
fn w_pool(out: &mut Vec<u8>, net: &Hypernet) -> (r: Result<(), CanonRefusal>)
    requires
        layout::writable(net@),
    ensures
        match r {
            Ok(_) => (forall|i: int|
                0 <= i < net@.complexes.len() ==> layout::complex_canonical(
                    #[trigger] net@.complexes[i],
                )) && final(out)@ == old(out)@ + layout::spell_pool(net@.complexes),
            Err(e) => (exists|i: int|
                0 <= i < net@.complexes.len() && !layout::complex_canonical(
                    #[trigger] net@.complexes[i],
                )) && e == CanonRefusal::EncodeNonCanonicalRational,
        },
{
    let ghost start: Seq<u8> = out@;
    let ghost all: Seq<simplex::ComplexModel> = net@.complexes;
    let ghost f = |c: simplex::ComplexModel| layout::spell_complex(c);
    let mut i: usize = 0;
    proof {
        writers::lemma_spell_none(f, all, start);
    }
    while i < net.complexes.len()
        invariant
            f == |c: simplex::ComplexModel| layout::spell_complex(c),
            all == net@.complexes,
            layout::writable(net@),
            i <= net.complexes@.len(),
            forall|j: int| 0 <= j < i ==> layout::complex_canonical(#[trigger] all[j]),
            out@ == start + layout::spell_all(f, all.take(i as int)),
        decreases net.complexes@.len() - i,
    {
        proof {
            assert(all[i as int] == net.complexes@[i as int]@);
            lemma_complex_fits(net@, i as int);
        }
        w_complex(out, &net.complexes[i])?;
        proof {
            writers::lemma_spell_next(f, all, i as int);
            writers::lemma_append(
                start,
                layout::spell_all(f, all.take(i as int)),
                layout::spell_complex(all[i as int]),
            );
        }
        i = i + 1;
    }
    assert(all.take(i as int) =~= all);
    Ok(())
}

/// Once an application is refused, the graph is.
proof fn lemma_refused(net: graph::NetModel, i: int, n: int)
    requires
        i <= n,
        layout::apps_refusal(net, i) is Some,
    ensures
        layout::apps_refusal(net, n) == layout::apps_refusal(net, i),
    decreases n - i,
{
    if i < n {
        lemma_refused(net, i, n - 1);
    }
}

/// The applications; the first one that cannot be written is refused.
fn w_apps(out: &mut Vec<u8>, net: &Hypernet) -> (r: Result<(), CanonRefusal>)
    requires
        layout::writable(net@),
        forall|i: int|
            0 <= i < net@.complexes.len() ==> layout::complex_canonical(
                #[trigger] net@.complexes[i],
            ),
    ensures
        match r {
            Ok(_) => layout::apps_refusal(net@, net@.apps.len() as int) is None && final(out)@
                == old(out)@ + layout::spell_apps(net@.wire_types, net@.apps),
            Err(e) => layout::apps_refusal(net@, net@.apps.len() as int) == Some(e@),
        },
{
    let ghost start: Seq<u8> = out@;
    let ghost all: Seq<app::AppModel> = net@.apps;
    let ghost f = |a: app::AppModel| layout::spell_app(net@.wire_types, a);
    let mut i: usize = 0;
    proof {
        writers::lemma_spell_none(f, all, start);
    }
    while i < net.apps.len()
        invariant
            f == |a: app::AppModel| layout::spell_app(net@.wire_types, a),
            all == net@.apps,
            layout::writable(net@),
            forall|i: int|
                0 <= i < net@.complexes.len() ==> layout::complex_canonical(
                    #[trigger] net@.complexes[i],
                ),
            i <= net.apps@.len(),
            layout::apps_refusal(net@, i as int) is None,
            out@ == start + layout::spell_all(f, all.take(i as int)),
        decreases net.apps@.len() - i,
    {
        assert(all[i as int] == net.apps@[i as int]@);
        proof {
            if layout::app_refusal(net@, i as u32, all[i as int]) is None {
                assert(layout::apps_refusal(net@, i + 1) is None);
            } else {
                lemma_refused(net@, i + 1, all.len() as int);
            }
        }
        w_app(out, net, i as u32, &net.apps[i])?;
        proof {
            writers::lemma_spell_next(f, all, i as int);
            writers::lemma_append(
                start,
                layout::spell_all(f, all.take(i as int)),
                layout::spell_app(net@.wire_types, all[i as int]),
            );
        }
        i = i + 1;
    }
    assert(all.take(i as int) =~= all);
    Ok(())
}

impl Hypernet {
    /// The canonical bytes of a graph. Wires are written as they are numbered. Names of wires
    /// and hints of complexes are not written.
    pub fn canonical_bytes(&self) -> (r: Result<Vec<u8>, CanonRefusal>)
        requires
            layout::writable(self@),
        ensures
            match r {
                Ok(bytes) => layout::refusal(self@) is None && bytes@ == layout::spell(self@),
                Err(e) => layout::refusal(self@) == Some(e@),
            },
    {
        let mut out: Vec<u8> = Vec::new();
        w_bytes(&mut out, MAGIC.as_slice());
        assert(out@ =~= layout::magic());
        w_u32(&mut out, self.wire_types.len() as u32);
        w_types(&mut out, &self.wire_types);
        w_u32(&mut out, self.complexes.len() as u32);
        w_pool(&mut out, self)?;
        w_u32(&mut out, self.apps.len() as u32);
        w_apps(&mut out, self)?;
        w_counted(&mut out, &self.graph_inputs);
        w_counted(&mut out, &self.graph_outputs);
        Ok(out)
    }
}

} // verus!
