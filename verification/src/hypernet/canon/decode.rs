//! Reading a graph.

use super::super::app::{App, ConstPayload, Wire};
use super::super::graph;
use super::super::graph::Hypernet;
use super::super::scalar;
use super::super::scalar::{copy_bytes, same_bytes, WitRat};
use super::super::simplex;
use super::super::simplex::{members, SimpC, VSet};
use super::super::types;
use super::super::types::{same_words, Dtype, Kind, TensorType};
use super::layout;
use super::layout::{MAGIC, ROUND_EXACT};
use super::order::lists_before;
use super::readers;
use super::readers::{
    cap, r_bitset, r_counted, r_dtype, r_many, r_rationals, r_shape, r_take, r_type, r_u16, r_u32,
    r_u8, r_wires, r_words, r_wtype,
};
use super::refusal::CanonRefusal;
use std::collections::BTreeMap;
use vstd::array::array_as_slice;
use vstd::prelude::*;

verus! {

broadcast use {
    vstd::std_specs::btree::group_btree_axioms,
    vstd::laws_cmp::group_laws_cmp,
    vstd::laws_eq::group_laws_eq,
};

/// Where a count of items without bytes exceeds what remains by more than the slack, the
/// refusal.
fn check_count(b: &[u8], off: usize, n: u32, empty: bool, what: &'static str) -> (r: Result<
    (),
    CanonRefusal,
>)
    requires
        off <= b@.len(),
    ensures
        match r {
            Ok(_) => layout::count_refusal(b@, off as int, n, empty, what) is None,
            Err(e) => layout::count_refusal(b@, off as int, n, empty, what) == Some(e@),
        },
{
    if empty {
        let remaining: usize = b.len() - off;
        if n as u64 > 1024 && n as u64 - 1024 > remaining as u64 {
            return Err(CanonRefusal::LengthOverflow { offset: off, got: n as u64, what });
        }
    }
    Ok(())
}

/// `n` vertices of `dim` coordinates.
fn r_vertices(b: &[u8], off: usize, dim: u32, n: u32) -> (r: Result<
    (Vec<Vec<WitRat>>, usize),
    CanonRefusal,
>)
    requires
        off <= b@.len(),
    ensures
        readers::ends(r, off, b@),
        match r {
            Ok((x, o)) => layout::many(layout::vertex_item(b@, dim), off as int, n as int) == Ok::<
                (Seq<Seq<scalar::Ratio>>, int),
                layout::CanonFault,
            >((simplex::lists(x@), o as int)),
            Err(e) => layout::many(layout::vertex_item(b@, dim), off as int, n as int) == Err::<
                (Seq<Seq<scalar::Ratio>>, int),
                layout::CanonFault,
            >(e@),
        },
{
    let ghost item = layout::vertex_item(b@, dim);
    let mut xs: Vec<Vec<WitRat>> = Vec::with_capacity(cap(b, off, n as u64, 9));
    let mut o: usize = off;
    let mut i: u32 = 0;
    assert(simplex::lists(xs@) =~= Seq::<Seq<scalar::Ratio>>::empty());
    while i < n
        invariant
            i <= n,
            off <= o <= b@.len(),
            item == layout::vertex_item(b@, dim),
            layout::many(item, off as int, i as int) == Ok::<
                (Seq<Seq<scalar::Ratio>>, int),
                layout::CanonFault,
            >((simplex::lists(xs@), o as int)),
        decreases n - i,
    {
        let got: Result<(Vec<WitRat>, usize), CanonRefusal> = r_rationals(b, o, dim as u64);
        assert(readers::seen_list(got) == item(o as int, simplex::lists(xs@)));
        match got {
            Ok((x, o2)) => {
                let ghost before: Seq<Seq<scalar::Ratio>> = simplex::lists(xs@);
                xs.push(x);
                o = o2;
                i = i + 1;
                assert(simplex::lists(xs@) =~= before.push(types::views(x@)));
            },
            Err(e) => {
                proof {
                    assert(layout::many(item, off as int, i + 1) is Err);
                    readers::lemma_fails(item, off as int, i + 1, n as int);
                }
                return Err(e);
            },
        }
    }
    Ok((xs, o))
}

/// `count` simplices among `n` vertices, in canonical order.
fn r_simplices(b: &[u8], off: usize, n: u32, count: u32) -> (r: Result<
    (Vec<VSet>, usize),
    CanonRefusal,
>)
    requires
        off <= b@.len(),
    ensures
        readers::ends(r, off, b@),
        readers::seen_list(r) == layout::many(
            layout::simplex_item(b@, n),
            off as int,
            count as int,
        ),
{
    let ghost item = layout::simplex_item(b@, n);
    let mut xs: Vec<VSet> = Vec::with_capacity(cap(b, off, count as u64, (n / 8) as usize));
    let mut last: Vec<u32> = Vec::new();
    let mut o: usize = off;
    let mut i: u32 = 0;
    assert(types::views(xs@) =~= Seq::<Set<u32>>::empty());
    while i < count
        invariant
            i <= count,
            off <= o <= b@.len(),
            item == layout::simplex_item(b@, n),
            xs@.len() == i,
            simplex::ascending(last@),
            i > 0 ==> last@.to_set() == xs@[i - 1]@,
            layout::many(item, off as int, i as int) == Ok::<
                (Seq<Set<u32>>, int),
                layout::CanonFault,
            >((types::views(xs@), o as int)),
        decreases count - i,
    {
        let ghost before: Seq<Set<u32>> = types::views(xs@);
        let got: Result<(VSet, usize), CanonRefusal> = r_bitset(b, o, n);
        match got {
            Ok((x, o2)) => {
                let list: Vec<u32> = members(&x);
                if i > 0 && lists_before(&list, &last) {
                    proof {
                        assert(before.last() == xs@[i - 1]@);
                        assert(layout::many(item, off as int, i + 1) is Err);
                        readers::lemma_fails(item, off as int, i + 1, count as int);
                    }
                    return Err(CanonRefusal::NonCanonicalSimplexOrder { offset: o });
                }
                assert(item(o as int, before) == Ok::<(Set<u32>, int), layout::CanonFault>(
                    (x@, o2 as int),
                )) by {
                    if i > 0 {
                        assert(before.last() == xs@[i - 1]@);
                    }
                }
                last = list;
                xs.push(x);
                o = o2;
                i = i + 1;
                assert(types::views(xs@) =~= before.push(x@));
            },
            Err(e) => {
                proof {
                    assert(item(o as int, before) is Err);
                    assert(layout::many(item, off as int, i + 1) is Err);
                    readers::lemma_fails(item, off as int, i + 1, count as int);
                }
                return Err(e);
            },
        }
    }
    Ok((xs, o))
}

/// A cell among `n` vertices.
fn r_cell(b: &[u8], off: usize, n: u32) -> (r: Result<((VSet, VSet), usize), CanonRefusal>)
    requires
        off <= b@.len(),
    ensures
        readers::ends(r, off, b@),
        forall|prev: Seq<(Set<u32>, Set<u32>)>|
            readers::seen(r) == #[trigger] layout::cell_item(b@, n)(off as int, prev),
{
    let (mask, o): (VSet, usize) = r_bitset(b, off, n)?;
    let (ext, o2): (VSet, usize) = r_bitset(b, o, n)?;
    Ok(((mask, ext), o2))
}

/// A complex.
fn r_complex(b: &[u8], off: usize) -> (r: Result<(SimpC, usize), CanonRefusal>)
    requires
        off <= b@.len(),
    ensures
        readers::ends(r, off, b@),
        readers::seen(r) == layout::p_complex(b@, off as int),
        r matches Ok((c, o)) ==> c.hint@ == Seq::<char>::empty(),
{
    let (n, o1): (u32, usize) = r_u32(b, off, "vertex count")?;
    let (amb_dim, o2): (u32, usize) = r_u32(b, o1, "ambient dimension")?;
    check_count(b, o2, n, amb_dim == 0, "vertices")?;
    let (vertices, o3): (Vec<Vec<WitRat>>, usize) = r_vertices(b, o2, amb_dim, n)?;
    let (n_simplices, o4): (u32, usize) = r_u32(b, o3, "simplex count")?;
    check_count(b, o4, n_simplices, n == 0, "simplices")?;
    let (simplices, o5): (Vec<VSet>, usize) = r_simplices(b, o4, n, n_simplices)?;
    let (n_cells, o6): (u32, usize) = r_u32(b, o5, "cell count")?;
    check_count(b, o6, n_cells, n == 0, "cells")?;
    let f = |o: usize| -> (x: Result<((VSet, VSet), usize), CanonRefusal>)
        requires
            o <= b@.len(),
        ensures
            readers::ends(x, o, b@),
            forall|prev: Seq<(Set<u32>, Set<u32>)>|
                readers::seen(x) == #[trigger] layout::cell_item(b@, n)(o as int, prev),
        { r_cell(b, o, n) };
    let (cells, o7): (Vec<(VSet, VSet)>, usize) = r_many(
        b,
        o6,
        n_cells as u64,
        (n / 4) as usize,
        f,
        Ghost(layout::cell_item(b@, n)),
    )?;
    Ok((SimpC::new(amb_dim, vertices, simplices, cells), o7))
}

/// A literal of type `t`.
fn r_payload(b: &[u8], off: usize, t: &TensorType) -> (r: Result<
    (ConstPayload, usize),
    CanonRefusal,
>)
    requires
        off <= b@.len(),
    ensures
        readers::ends(r, off, b@),
        readers::seen(r) == layout::p_payload(b@, off as int, t@),
{
    let size: u64 = t.size();
    if t.dtype.kind == Kind::Rat {
        let (qs, o): (Vec<WitRat>, usize) = r_rationals(b, off, size)?;
        return Ok((ConstPayload::Rat(qs), o));
    }
    let n: u32 = size as u32;
    let (set, o): (VSet, usize) = r_bitset(b, off, n)?;
    let mut bits: Vec<bool> = Vec::new();
    let mut i: u32 = 0;
    while i < n
        invariant
            i <= n,
            bits@ == layout::listed_bits(set@, n).take(i as int),
        decreases n - i,
    {
        bits.push(set.contains(&i));
        i = i + 1;
        assert(bits@ =~= layout::listed_bits(set@, n).take(i as int));
    }
    assert(bits@ =~= layout::listed_bits(set@, n));
    Ok((ConstPayload::Bits(bits), o))
}

/// The body of a `const` application.
fn r_const(b: &[u8], off: usize, ts: &Vec<TensorType>) -> (r: Result<(App, usize), CanonRefusal>)
    requires
        off <= b@.len(),
    ensures
        readers::ends(r, off, b@),
        readers::seen(r) == layout::p_const(b@, off as int, types::views(ts@)),
{
    let (out, o): (Wire, usize) = r_u32(b, off, "const output wire")?;
    let t: &TensorType = r_wtype(ts, out, off)?;
    let (value, o2): (ConstPayload, usize) = r_payload(b, o, t)?;
    Ok((App::Const { out, value }, o2))
}

/// The body of a `contract` application.
fn r_contract(b: &[u8], off: usize, ts: &Vec<TensorType>) -> (r: Result<
    (App, usize),
    CanonRefusal,
>)
    requires
        off <= b@.len(),
    ensures
        readers::ends(r, off, b@),
        readers::seen(r) == layout::p_contract(b@, off as int, types::views(ts@)),
{
    let (dtype, o1): (Dtype, usize) = r_dtype(b, off)?;
    let (n_inputs, o2): (u32, usize) = r_u32(b, o1, "contract input count")?;
    let (inputs, o3): (Vec<Wire>, usize) = r_wires(b, o2, n_inputs, "contract input wire")?;
    proof {
        super::faithful::lemma_wires(b@, o2 as int, "contract input wire", n_inputs as int);
    }
    let (output, o4): (Wire, usize) = r_u32(b, o3, "contract output wire")?;
    let t: &TensorType = r_wtype(ts, output, o3)?;
    if t.dtype != dtype {
        return Err(
            CanonRefusal::RedundantFieldMismatch { offset: off, what: "contract output dtype" },
        );
    }
    let (extents, o5): (Vec<u64>, usize) = r_words(
        b,
        o4,
        "contract extent count",
        "contract extent",
    )?;
    let f = |o: usize| -> (x: Result<(Vec<u32>, usize), CanonRefusal>)
        requires
            o <= b@.len(),
        ensures
            readers::ends(x, o, b@),
            readers::seen(x) == layout::p_counted(
                b@,
                o as int,
                "in-binding length",
                "in-binding entry",
            ),
        { r_counted(b, o, "in-binding length", "in-binding entry") };
    let (in_bindings, o6): (Vec<Vec<u32>>, usize) = r_many(
        b,
        o5,
        n_inputs as u64,
        4,
        f,
        Ghost(layout::binding_item(b@)),
    )?;
    let (out_binding, o7): (Vec<u32>, usize) = r_counted(
        b,
        o6,
        "out-binding length",
        "out-binding entry",
    )?;
    Ok((App::Contract { inputs, output, extents, in_bindings, out_binding }, o7))
}

/// The body of a `cast` application.
fn r_cast(b: &[u8], off: usize, ts: &Vec<TensorType>) -> (r: Result<(App, usize), CanonRefusal>)
    requires
        off <= b@.len(),
    ensures
        readers::ends(r, off, b@),
        readers::seen(r) == layout::p_cast(b@, off as int, types::views(ts@)),
{
    let (from, o1): (Dtype, usize) = r_dtype(b, off)?;
    let (to, o2): (Dtype, usize) = r_dtype(b, o1)?;
    let (shape, o3): (Vec<u64>, usize) = r_shape(b, o2)?;
    let (inp, o4): (Wire, usize) = r_u32(b, o3, "cast input wire")?;
    let (out, o5): (Wire, usize) = r_u32(b, o4, "cast output wire")?;
    let t: &TensorType = r_wtype(ts, inp, o3)?;
    if t.dtype != from || !same_words(t.shape.as_slice(), shape.as_slice()) {
        return Err(
            CanonRefusal::RedundantFieldMismatch { offset: off, what: "cast input dtype/shape" },
        );
    }
    let u: &TensorType = r_wtype(ts, out, o4)?;
    if u.dtype != to {
        return Err(
            CanonRefusal::RedundantFieldMismatch { offset: off, what: "cast output dtype" },
        );
    }
    Ok((App::Cast { inp, out }, o5))
}

/// The body of a `cell` application.
fn r_cell_app(b: &[u8], off: usize) -> (r: Result<(App, usize), CanonRefusal>)
    requires
        off <= b@.len(),
    ensures
        readers::ends(r, off, b@),
        readers::seen(r) == layout::p_cell(b@, off as int),
{
    let (complex_idx, o1): (u32, usize) = r_u32(b, off, "cell complex index")?;
    let (inp, o2): (Wire, usize) = r_u32(b, o1, "cell input wire")?;
    let (outs, o3): (Vec<Wire>, usize) = r_counted(
        b,
        o2,
        "cell output count",
        "cell output wire",
    )?;
    Ok((App::Cell { complex_idx, inp, outs }, o3))
}

/// The body of a `reshape` application.
fn r_reshape(b: &[u8], off: usize) -> (r: Result<(App, usize), CanonRefusal>)
    requires
        off <= b@.len(),
    ensures
        readers::ends(r, off, b@),
        readers::seen(r) == layout::p_reshape(b@, off as int),
{
    let (new_shape, o1): (Vec<u64>, usize) = r_shape(b, off)?;
    let (inp, o2): (Wire, usize) = r_u32(b, o1, "reshape input wire")?;
    let (out, o3): (Wire, usize) = r_u32(b, o2, "reshape output wire")?;
    Ok((App::Reshape { new_shape, inp, out }, o3))
}

/// The body of a `broadcast` application.
fn r_broadcast(b: &[u8], off: usize) -> (r: Result<(App, usize), CanonRefusal>)
    requires
        off <= b@.len(),
    ensures
        readers::ends(r, off, b@),
        readers::seen(r) == layout::p_broadcast(b@, off as int),
{
    let (to_shape, o1): (Vec<u64>, usize) = r_shape(b, off)?;
    let (inp, o2): (Wire, usize) = r_u32(b, o1, "broadcast input wire")?;
    let (out, o3): (Wire, usize) = r_u32(b, o2, "broadcast output wire")?;
    Ok((App::Broadcast { to_shape, inp, out }, o3))
}

/// The body of a `copy` application.
fn r_copy(b: &[u8], off: usize) -> (r: Result<(App, usize), CanonRefusal>)
    requires
        off <= b@.len(),
    ensures
        readers::ends(r, off, b@),
        readers::seen(r) == layout::p_copy(b@, off as int),
{
    let (n_outs, o1): (u32, usize) = r_u32(b, off, "copy output count")?;
    let (inp, o2): (Wire, usize) = r_u32(b, o1, "copy input wire")?;
    let (outs, o3): (Vec<Wire>, usize) = r_wires(b, o2, n_outs, "copy output wire")?;
    Ok((App::Copy { inp, outs }, o3))
}

/// The body of a `swap` application.
fn r_swap(b: &[u8], off: usize) -> (r: Result<(App, usize), CanonRefusal>)
    requires
        off <= b@.len(),
    ensures
        readers::ends(r, off, b@),
        readers::seen(r) == layout::p_swap(b@, off as int),
{
    let (in1, o1): (Wire, usize) = r_u32(b, off, "swap in1")?;
    let (in2, o2): (Wire, usize) = r_u32(b, o1, "swap in2")?;
    let (out1, o3): (Wire, usize) = r_u32(b, o2, "swap out1")?;
    let (out2, o4): (Wire, usize) = r_u32(b, o3, "swap out2")?;
    Ok((App::Swap { in1, in2, out1, out2 }, o4))
}

/// The body of a `stack` application.
fn r_stack(b: &[u8], off: usize) -> (r: Result<(App, usize), CanonRefusal>)
    requires
        off <= b@.len(),
    ensures
        readers::ends(r, off, b@),
        readers::seen(r) == layout::p_stack(b@, off as int),
{
    let (inputs, o1): (Vec<Wire>, usize) = r_counted(
        b,
        off,
        "stack input count",
        "stack input wire",
    )?;
    let (output, o2): (Wire, usize) = r_u32(b, o1, "stack output wire")?;
    Ok((App::Stack { inputs, output }, o2))
}

/// An application.
fn r_app(b: &[u8], off: usize, ts: &Vec<TensorType>) -> (r: Result<(App, usize), CanonRefusal>)
    requires
        off <= b@.len(),
    ensures
        readers::ends(r, off, b@),
        readers::seen(r) == layout::p_app(b@, off as int, types::views(ts@)),
{
    let (tag, o1): (u8, usize) = r_u8(b, off, "application tag")?;
    let (round, o2): (u8, usize) = r_u8(b, o1, "rounding mode")?;
    let (pad, o3): (u16, usize) = r_u16(b, o2, "application pad")?;
    if round != ROUND_EXACT || pad != 0 {
        return Err(CanonRefusal::BadAppHeader { offset: off, round, pad });
    }
    if tag == 0 {
        r_const(b, o3, ts)
    } else if tag == 1 {
        r_contract(b, o3, ts)
    } else if tag == 2 {
        r_cast(b, o3, ts)
    } else if tag == 3 {
        r_cell_app(b, o3)
    } else if tag == 4 {
        r_reshape(b, o3)
    } else if tag == 5 {
        r_broadcast(b, o3)
    } else if tag == 6 {
        r_copy(b, o3)
    } else if tag == 7 {
        let (inp, o4): (Wire, usize) = r_u32(b, o3, "delete input wire")?;
        Ok((App::Delete { inp }, o4))
    } else if tag == 8 {
        r_swap(b, o3)
    } else if tag == 9 {
        r_stack(b, o3)
    } else {
        Err(CanonRefusal::UnknownTag { offset: off, tag })
    }
}

/// The wire-type table behind its count.
fn r_types(b: &[u8], off: usize) -> (r: Result<(Vec<TensorType>, usize), CanonRefusal>)
    requires
        off <= b@.len(),
    ensures
        readers::ends(r, off, b@),
        readers::seen_list(r) == layout::p_types(b@, off as int),
{
    let (n, o): (u32, usize) = r_u32(b, off, "wire-type count")?;
    let f = |o: usize| -> (x: Result<(TensorType, usize), CanonRefusal>)
        requires
            o <= b@.len(),
        ensures
            readers::ends(x, o, b@),
            readers::seen(x) == layout::p_type(b@, o as int),
        { r_type(b, o) };
    r_many(b, o, n as u64, 8, f, Ghost(layout::type_item(b@)))
}

/// The complex pool behind its count.
fn r_pool(b: &[u8], off: usize) -> (r: Result<(Vec<SimpC>, usize), CanonRefusal>)
    requires
        off <= b@.len(),
    ensures
        readers::ends(r, off, b@),
        readers::seen_list(r) == layout::p_pool(b@, off as int),
        r matches Ok((cs, o)) ==> forall|i: int|
            0 <= i < cs@.len() ==> (#[trigger] cs@[i]).hint@ == Seq::<char>::empty(),
{
    let (n, o): (u32, usize) = r_u32(b, off, "complex count")?;
    let f = |o: usize| -> (x: Result<(SimpC, usize), CanonRefusal>)
        requires
            o <= b@.len(),
        ensures
            readers::ends(x, o, b@),
            readers::seen(x) == layout::p_complex(b@, o as int),
            x matches Ok((c, e)) ==> c.hint@ == Seq::<char>::empty(),
        { r_complex(b, o) };
    let r: Result<(Vec<SimpC>, usize), CanonRefusal> = r_many(
        b,
        o,
        n as u64,
        16,
        f,
        Ghost(layout::complex_item(b@)),
    );
    proof {
        if let Ok((cs, e)) = &r {
            assert forall|i: int| 0 <= i < cs@.len() implies (#[trigger] cs@[i]).hint@
                == Seq::<char>::empty() by {
                assert(readers::comes_from(f, cs@[i]));
            }
        }
    }
    r
}

/// The applications behind their count.
fn r_apps(b: &[u8], off: usize, ts: &Vec<TensorType>) -> (r: Result<
    (Vec<App>, usize),
    CanonRefusal,
>)
    requires
        off <= b@.len(),
    ensures
        readers::ends(r, off, b@),
        readers::seen_list(r) == layout::p_apps(b@, off as int, types::views(ts@)),
{
    let (n, o): (u32, usize) = r_u32(b, off, "application count")?;
    let f = |o: usize| -> (x: Result<(App, usize), CanonRefusal>)
        requires
            o <= b@.len(),
        ensures
            readers::ends(x, o, b@),
            readers::seen(x) == layout::p_app(b@, o as int, types::views(ts@)),
        { r_app(b, o, ts) };
    r_many(b, o, n as u64, 8, f, Ghost(layout::app_item(b@, types::views(ts@))))
}

impl Hypernet {
    /// Reads a graph from its canonical bytes. Refuses bytes that end too early, unknown
    /// tags, rationals that are not canonical, stray bits, simplices out of order, repeated
    /// fields that disagree with the wire-type table, and bytes behind the graph: writing the
    /// graph gives the same bytes again. Only the structure is read; whether the graph is well
    /// formed is for [`Hypernet::preflight`] to say.
    pub fn from_canonical_bytes(b: &[u8]) -> (r: Result<Hypernet, CanonRefusal>)
        ensures
            match r {
                Ok(net) => layout::parse(b@) == Ok::<graph::NetModel, layout::CanonFault>(net@),
                Err(e) => layout::parse(b@) == Err::<graph::NetModel, layout::CanonFault>(e@),
            },
            r matches Ok(net) ==> net.wire_names@ == Map::<Wire, String>::empty(),
            r matches Ok(net) ==> forall|i: int|
                0 <= i < net.hints().len() ==> #[trigger] net.hints()[i] == Seq::<char>::empty(),
            r matches Ok(net) ==> layout::writable(net@) && layout::refusal(net@) is None
                && layout::spell(net@) == b@,
    {
        proof {
            super::faithful::law_decode_encode(b@);
        }
        let (magic, o): (&[u8], usize) = r_take(b, 0, 8, "magic")?;
        if !same_bytes(magic, array_as_slice(&MAGIC)) {
            return Err(CanonRefusal::BadMagic { got: copy_bytes(magic) });
        }
        let (wire_types, o1): (Vec<TensorType>, usize) = r_types(b, o)?;
        let (complexes, o2): (Vec<SimpC>, usize) = r_pool(b, o1)?;
        let (apps, o3): (Vec<App>, usize) = r_apps(b, o2, &wire_types)?;
        let (graph_inputs, o4): (Vec<Wire>, usize) = r_counted(
            b,
            o3,
            "graph input count",
            "graph input wire",
        )?;
        let (graph_outputs, o5): (Vec<Wire>, usize) = r_counted(
            b,
            o4,
            "graph output count",
            "graph output wire",
        )?;
        if o5 != b.len() {
            return Err(CanonRefusal::TrailingBytes { got: b.len() - o5 });
        }
        Ok(
            Hypernet {
                wire_types,
                complexes,
                apps,
                graph_inputs,
                graph_outputs,
                wire_names: BTreeMap::new(),
            },
        )
    }
}

} // verus!
