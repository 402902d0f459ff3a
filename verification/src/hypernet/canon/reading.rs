//! Reading takes every field from its place: what was read has counts that their four bytes
//! can hold, and the bytes say of each field what was read.

use super::super::app;
use super::super::graph;
use super::super::int_bytes;
use super::super::scalar;
use super::super::simplex;
use super::super::types;
use super::faithful;
use super::fields;
use super::fields::measurable;
use super::layout;
use super::places;
use super::places::{app_measured, app_stands, complex_measured, vertex_measured};
use super::sections;
use super::sections::{graph_stands, measured};
use vstd::prelude::*;

verus! {

/// As many items are read as were asked for, and each has what every item has.
proof fn lemma_many<T>(
    item: spec_fn(int, Seq<T>) -> layout::Parsed<T>,
    off: int,
    n: int,
    good: spec_fn(T) -> bool,
)
    requires
        0 <= n,
        0 <= off,
        forall|o: int, prev: Seq<T>| 0 <= o ==> (#[trigger] item(o, prev) matches Ok((x, e)) ==> good(x)
            && 0 <= e),
    ensures
        layout::many(item, off, n) matches Ok((xs, e)) ==> 0 <= e && xs.len() == n && forall|i: int|
            0 <= i < xs.len() ==> good(#[trigger] xs[i]),
    decreases n,
{
    if n > 0 {
        lemma_many(item, off, n - 1, good);
        if let Ok((xs, o)) = layout::many(item, off, n - 1) {
            if let Ok((x, e)) = item(o, xs) {
                let ys: Seq<T> = xs.push(x);
                assert forall|i: int| 0 <= i < ys.len() implies good(#[trigger] ys[i]) by {
                    if i < xs.len() {
                        assert(good(xs[i]));
                    }
                }
            }
        }
    }
}

/// A list that was read behind its count.
proof fn lemma_counted(b: Seq<u8>, off: int, count: &'static str, what: &'static str)
    requires
        0 <= off,
    ensures
        layout::p_counted(b, off, count, what) matches Ok((ws, e)) ==> ws.len() <= u32::MAX && 0
            <= e,
{
    if let Ok((n, o)) = layout::p_u32(b, off, count) {
        lemma_many(layout::wire_item(b, what), o, n as int, |x: u32| true);
    }
}

/// Extents that were read behind their count.
proof fn lemma_words(b: Seq<u8>, off: int, count: &'static str, what: &'static str)
    requires
        0 <= off,
    ensures
        layout::p_words(b, off, count, what) matches Ok((ws, e)) ==> ws.len() <= u32::MAX && 0
            <= e,
{
    if let Ok((n, o)) = layout::p_u32(b, off, count) {
        lemma_many(layout::word_item(b, what), o, n as int, |x: u64| true);
    }
}

/// A rational that was read.
proof fn lemma_rational(b: Seq<u8>, off: int)
    requires
        0 <= off,
    ensures
        layout::p_rational(b, off) matches Ok((q, e)) ==> measurable(q) && 0 <= e,
{
    if let Ok((q, e)) = layout::p_rational(b, off) {
        let (num_len, o1) = layout::p_u32(b, off, "rational numerator length")->Ok_0;
        let (den_len, o2) = layout::p_u32(b, o1, "rational denominator length")->Ok_0;
        let nb: Seq<u8> = layout::p_take(
            b,
            o2,
            num_len as int,
            "rational numerator bytes",
        )->Ok_0.0;
        let o3: int = layout::p_take(b, o2, num_len as int, "rational numerator bytes")->Ok_0.1;
        let db: Seq<u8> = layout::p_take(
            b,
            o3,
            den_len as int,
            "rational denominator bytes",
        )->Ok_0.0;
        int_bytes::lemma_minimal_unique(nb);
        int_bytes::lemma_magnitude_unique(db);
    }
}

/// Rationals that were read.
proof fn lemma_rationals(b: Seq<u8>, off: int, n: int)
    requires
        0 <= off,
        0 <= n,
    ensures
        layout::many(layout::rational_item(b), off, n) matches Ok((qs, e)) ==> vertex_measured(qs)
            && 0 <= e,
{
    let good = |q: scalar::Ratio| measurable(q);
    let item = layout::rational_item(b);
    assert forall|o: int, prev: Seq<scalar::Ratio>| 0 <= o && (#[trigger]
            item(o, prev) is Ok) implies good(item(o, prev)->Ok_0.0) && 0 <= item(o, prev)->Ok_0.1 by {
        lemma_rational(b, o);
    }
    lemma_many(item, off, n, good);
    if let Ok((qs, e)) = layout::many(item, off, n) {
        assert forall|i: int| 0 <= i < qs.len() implies measurable(#[trigger] qs[i]) by {
            assert(good(qs[i]));
        }
    }
}

/// The members of a set are below `n`.
spec fn below(s: Set<u32>, n: int) -> bool {
    forall|x: u32| #[trigger] s.contains(x) ==> x < n
}

/// The simplices and cells that were read.
proof fn lemma_faces(b: Seq<u8>, off: int, n: u32)
    requires
        0 <= off,
    ensures
        layout::p_faces(b, off, n) matches Ok(((xs, cs), e)) ==> {
            &&& 0 <= e
            &&& xs.len() <= u32::MAX
            &&& cs.len() <= u32::MAX
            &&& forall|i: int| 0 <= i < xs.len() ==> below(#[trigger] xs[i], n as int)
            &&& forall|i: int| 0 <= i < cs.len() ==> below((#[trigger] cs[i]).0, n as int)
            &&& forall|i: int| 0 <= i < cs.len() ==> below((#[trigger] cs[i]).1, n as int)
        },
{
    if let Ok(((xs, cs), e)) = layout::p_faces(b, off, n) {
        let (n1, o1) = layout::p_u32(b, off, "simplex count")->Ok_0;
        let g1 = |s: Set<u32>| below(s, n as int);
        let i1 = layout::simplex_item(b, n);
        assert forall|o: int, prev: Seq<Set<u32>>| 0 <= o && (#[trigger]
            i1(o, prev) is Ok) implies g1(i1(o, prev)->Ok_0.0) && 0 <= i1(o, prev)->Ok_0.1 by {}
        lemma_many(i1, o1, n1 as int, g1);
        let o2: int = layout::many(i1, o1, n1 as int)->Ok_0.1;
        let (n2, o3) = layout::p_u32(b, o2, "cell count")->Ok_0;
        let g2 = |c: (Set<u32>, Set<u32>)| below(c.0, n as int) && below(c.1, n as int);
        let i2 = layout::cell_item(b, n);
        assert forall|o: int, prev: Seq<(Set<u32>, Set<u32>)>| 0 <= o && (#[trigger]
            i2(o, prev) is Ok) implies g2(i2(o, prev)->Ok_0.0) && 0 <= i2(o, prev)->Ok_0.1 by {}
        lemma_many(i2, o3, n2 as int, g2);
        assert forall|i: int| 0 <= i < xs.len() implies below(#[trigger] xs[i], n as int) by {
            assert(g1(xs[i]));
        }
        assert forall|i: int| 0 <= i < cs.len() implies below((#[trigger] cs[i]).0, n as int) by {
            assert(g2(cs[i]));
        }
        assert forall|i: int| 0 <= i < cs.len() implies below((#[trigger] cs[i]).1, n as int) by {
            assert(g2(cs[i]));
        }
    }
}

/// A complex that was read.
proof fn lemma_complex(b: Seq<u8>, off: int)
    requires
        0 <= off,
    ensures
        layout::p_complex(b, off) matches Ok((c, e)) ==> complex_measured(c) && 0 <= e,
{
    if let Ok((c, e)) = layout::p_complex(b, off) {
        let (n, o1) = layout::p_u32(b, off, "vertex count")->Ok_0;
        let (amb_dim, o2) = layout::p_u32(b, o1, "ambient dimension")->Ok_0;
        let good = |v: Seq<scalar::Ratio>| vertex_measured(v);
        let item = layout::vertex_item(b, amb_dim);
        assert forall|o: int, prev: Seq<Seq<scalar::Ratio>>| 0 <= o && (#[trigger]
            item(o, prev) is Ok) implies good(item(o, prev)->Ok_0.0) && 0 <= item(o, prev)->Ok_0.1 by {
            lemma_rationals(b, o, amb_dim as int);
        }
        lemma_many(item, o2, n as int, good);
        let o3: int = layout::many(item, o2, n as int)->Ok_0.1;
        lemma_faces(b, o3, n);
        assert(c.vertices.len() == n);
        assert forall|i: int| 0 <= i < c.vertices.len() implies vertex_measured(
            #[trigger] c.vertices[i],
        ) by {
            assert(good(c.vertices[i]));
        }
        assert forall|i: int, x: u32| 0 <= i < c.simplices.len() && #[trigger] c.simplices[i].contains(
            x,
        ) implies x < n by {
            assert(below(c.simplices[i], n as int));
        }
        assert forall|i: int, x: u32| 0 <= i < c.cells.len() && #[trigger] c.cells[i].0.contains(
            x,
        ) implies x < n by {
            assert(below(c.cells[i].0, n as int));
        }
        assert forall|i: int, x: u32| 0 <= i < c.cells.len() && #[trigger] c.cells[i].1.contains(
            x,
        ) implies x < n by {
            assert(below(c.cells[i].1, n as int));
        }
    }
}

/// A literal that was read.
proof fn lemma_const(b: Seq<u8>, off: int, ts: Seq<types::TypeModel>)
    requires
        0 <= off,
    ensures
        layout::p_const(b, off, ts) matches Ok((a, e)) ==> app_measured(ts, a) && 0 <= e,
{
    if let Ok((a, e)) = layout::p_const(b, off, ts) {
        let (out, o) = layout::p_u32(b, off, "const output wire")->Ok_0;
        let t: types::TypeModel = ts[out as int];
        let size: u64 = types::entries(t.shape);
        lemma_rationals(b, o, size as int);
    }
}

/// A contraction that was read.
proof fn lemma_contract(b: Seq<u8>, off: int, ts: Seq<types::TypeModel>)
    requires
        0 <= off,
    ensures
        layout::p_contract(b, off, ts) matches Ok((a, e)) ==> app_measured(ts, a) && 0 <= e,
{
    if let Ok((a, e)) = layout::p_contract(b, off, ts) {
        let o1: int = layout::p_dtype(b, off)->Ok_0.1;
        lemma_counted(b, o1, "contract input count", "contract input wire");
        let (inputs, o2) = layout::p_counted(
            b,
            o1,
            "contract input count",
            "contract input wire",
        )->Ok_0;
        let o3: int = layout::p_u32(b, o2, "contract output wire")->Ok_0.1;
        lemma_words(b, o3, "contract extent count", "contract extent");
        let o4: int = layout::p_words(
            b,
            o3,
            "contract extent count",
            "contract extent",
        )->Ok_0.1;
        let good = |l: Seq<u32>| l.len() <= u32::MAX;
        let item = layout::binding_item(b);
        assert forall|o: int, prev: Seq<Seq<u32>>| 0 <= o && (#[trigger]
            item(o, prev) is Ok) implies good(item(o, prev)->Ok_0.0) && 0 <= item(o, prev)->Ok_0.1 by {
            lemma_counted(b, o, "in-binding length", "in-binding entry");
        }
        lemma_many(item, o4, inputs.len() as int, good);
        let (bs, o5) = layout::many(item, o4, inputs.len() as int)->Ok_0;
        assert forall|i: int| 0 <= i < bs.len() implies (#[trigger] bs[i]).len() <= u32::MAX by {
            assert(good(bs[i]));
        }
        lemma_counted(b, o5, "out-binding length", "out-binding entry");
    }
}

/// A cast that was read.
proof fn lemma_cast(b: Seq<u8>, off: int, ts: Seq<types::TypeModel>)
    requires
        0 <= off,
    ensures
        layout::p_cast(b, off, ts) matches Ok((a, e)) ==> app_measured(ts, a) && 0 <= e,
{
    if let Ok((a, e)) = layout::p_cast(b, off, ts) {
        let o1: int = layout::p_dtype(b, off)->Ok_0.1;
        let o2: int = layout::p_dtype(b, o1)->Ok_0.1;
        lemma_words(b, o2, "shape rank", "shape extent");
    }
}

/// The counts of an application that was read.
proof fn lemma_body(b: Seq<u8>, off: int, tag: u8, header: int, ts: Seq<types::TypeModel>)
    requires
        0 <= off,
    ensures
        layout::p_body(b, off, tag, header, ts) matches Ok((a, e)) ==> app_measured(ts, a) && 0 <= e,
{
    if tag == 0 {
        lemma_const(b, off, ts);
    } else if tag == 1 {
        lemma_contract(b, off, ts);
    } else if tag == 2 {
        lemma_cast(b, off, ts);
    } else if tag == 3 {
        if let Ok((idx, o1)) = layout::p_u32(b, off, "cell complex index") {
            if let Ok((inp, o2)) = layout::p_u32(b, o1, "cell input wire") {
                lemma_counted(b, o2, "cell output count", "cell output wire");
            }
        }
    } else if tag == 4 || tag == 5 {
        lemma_words(b, off, "shape rank", "shape extent");
    } else if tag == 6 {
        if let Ok((n, o1)) = layout::p_u32(b, off, "copy output count") {
            if let Ok((inp, o2)) = layout::p_u32(b, o1, "copy input wire") {
                lemma_many(
                    layout::wire_item(b, "copy output wire"),
                    o2,
                    n as int,
                    |x: u32| true,
                );
            }
        }
    } else if tag == 9 {
        lemma_counted(b, off, "stack input count", "stack input wire");
    }
}

/// Reading an application takes each of its fields from its place, and ends behind the last.
pub proof fn law_read_app_fields(b: Seq<u8>, off: int, ts: Seq<types::TypeModel>)
    requires
        0 <= off <= b.len(),
    ensures
        layout::p_app(b, off, ts) matches Ok((a, e)) ==> {
            &&& app_measured(ts, a)
            &&& app_stands(b, off, e, ts, a)
        },
{
    if let Ok((a, e)) = layout::p_app(b, off, ts) {
        let tag: u8 = layout::p_u8(b, off, "application tag")->Ok_0.0;
        lemma_body(b, off + 4, tag, off, ts);
        faithful::lemma_app(b, off, ts);
        places::law_app_fields(b, off, e, ts, a);
    }
}

/// The wire types that were read.
proof fn lemma_types(b: Seq<u8>, off: int)
    requires
        0 <= off,
    ensures
        layout::p_types(b, off) matches Ok((ts, e)) ==> {
            &&& 0 <= e
            &&& ts.len() <= u32::MAX
            &&& forall|i: int| 0 <= i < ts.len() ==> (#[trigger] ts[i]).shape.len() <= u32::MAX
        },
{
    if let Ok((n, o1)) = layout::p_u32(b, off, "wire-type count") {
        let good = |t: types::TypeModel| t.shape.len() <= u32::MAX;
        let item = layout::type_item(b);
        assert forall|o: int, prev: Seq<types::TypeModel>| 0 <= o && (#[trigger]
            item(o, prev) is Ok) implies good(item(o, prev)->Ok_0.0) && 0 <= item(o, prev)->Ok_0.1 by {
            let p: int = layout::p_dtype(b, o)->Ok_0.1;
            lemma_words(b, p, "shape rank", "shape extent");
        }
        lemma_many(item, o1, n as int, good);
        if let Ok((ts, e)) = layout::many(item, o1, n as int) {
            assert forall|i: int| 0 <= i < ts.len() implies (#[trigger] ts[i]).shape.len()
                <= u32::MAX by {
                assert(good(ts[i]));
            }
        }
    }
}

/// The complexes that were read.
proof fn lemma_pool(b: Seq<u8>, off: int)
    requires
        0 <= off,
    ensures
        layout::p_pool(b, off) matches Ok((cs, e)) ==> {
            &&& 0 <= e
            &&& cs.len() <= u32::MAX
            &&& forall|i: int| 0 <= i < cs.len() ==> complex_measured(#[trigger] cs[i])
        },
{
    if let Ok((n, o1)) = layout::p_u32(b, off, "complex count") {
        let good = |c: simplex::ComplexModel| complex_measured(c);
        let item = layout::complex_item(b);
        assert forall|o: int, prev: Seq<simplex::ComplexModel>| 0 <= o && (#[trigger]
            item(o, prev) is Ok) implies good(item(o, prev)->Ok_0.0) && 0 <= item(o, prev)->Ok_0.1 by {
            lemma_complex(b, o);
        }
        lemma_many(item, o1, n as int, good);
        if let Ok((cs, e)) = layout::many(item, o1, n as int) {
            assert forall|i: int| 0 <= i < cs.len() implies complex_measured(#[trigger] cs[i]) by {
                assert(good(cs[i]));
            }
        }
    }
}

/// The applications that were read.
proof fn lemma_apps(b: Seq<u8>, off: int, ts: Seq<types::TypeModel>)
    requires
        0 <= off,
    ensures
        layout::p_apps(b, off, ts) matches Ok((xs, e)) ==> {
            &&& 0 <= e
            &&& xs.len() <= u32::MAX
            &&& forall|i: int| 0 <= i < xs.len() ==> app_measured(ts, #[trigger] xs[i])
        },
{
    if let Ok((n, o1)) = layout::p_u32(b, off, "application count") {
        let good = |a: app::AppModel| app_measured(ts, a);
        let item = layout::app_item(b, ts);
        assert forall|o: int, prev: Seq<app::AppModel>| 0 <= o && (#[trigger]
            item(o, prev) is Ok) implies good(item(o, prev)->Ok_0.0) && 0 <= item(o, prev)->Ok_0.1 by {
            let tag: u8 = layout::p_u8(b, o, "application tag")->Ok_0.0;
            lemma_body(b, o + 4, tag, o, ts);
        }
        lemma_many(item, o1, n as int, good);
        if let Ok((xs, e)) = layout::many(item, o1, n as int) {
            assert forall|i: int| 0 <= i < xs.len() implies app_measured(ts, #[trigger] xs[i]) by {
                assert(good(xs[i]));
            }
        }
    }
}

/// A graph that was read has counts that their four bytes can hold.
proof fn lemma_measured(b: Seq<u8>)
    ensures
        layout::parse(b) matches Ok(net) ==> measured(net),
{
    if let Ok(net) = layout::parse(b) {
        lemma_types(b, 8);
        let (ts, o1) = layout::p_types(b, 8)->Ok_0;
        lemma_pool(b, o1);
        let o2: int = layout::p_pool(b, o1)->Ok_0.1;
        lemma_apps(b, o2, ts);
        let o3: int = layout::p_apps(b, o2, ts)->Ok_0.1;
        lemma_counted(b, o3, "graph input count", "graph input wire");
        let o4: int = layout::p_counted(b, o3, "graph input count", "graph input wire")->Ok_0.1;
        lemma_counted(b, o4, "graph output count", "graph output wire");
    }
}

/// Reading takes every field from its place: bytes that are read are, section by section, box
/// by box and field by field, those of the graph that was read.
pub proof fn law_read_fields(b: Seq<u8>)
    ensures
        layout::parse(b) matches Ok(net) ==> measured(net) && graph_stands(b, net),
{
    if let Ok(net) = layout::parse(b) {
        lemma_measured(b);
        faithful::law_decode_encode(b);
        sections::law_written_fields(net);
    }
}

} // verus!
