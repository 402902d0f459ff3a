//! What is read is spelled by the bytes that were read.

use super::super::app;
use super::super::graph;
use super::super::int_bytes;
use super::super::scalar;
use super::super::simplex;
use super::super::types;
use super::super::types::Kind;
use super::bytes;
use super::layout;
use super::order;
use vstd::prelude::*;

verus! {

/// What was read at `off` is spelled by the bytes up to the offset behind it.
pub open spec fn faithful<T>(
    b: Seq<u8>,
    off: int,
    r: layout::Parsed<T>,
    f: spec_fn(T) -> Seq<u8>,
) -> bool {
    r matches Ok((x, o)) ==> bytes::spans(b, off, o, f(x))
}

/// Words are spelled by their bytes.
pub proof fn lemma_word(b: Seq<u8>, off: int, n: int, what: &'static str)
    requires
        0 <= off,
        0 <= n,
    ensures
        layout::p_word(b, off, n, what) matches Ok((x, o)) ==> {
            &&& o == off + n
            &&& bytes::spans(b, off, o, layout::le(x, n as nat))
            &&& x < int_bytes::pow256(n as nat)
        },
{
    if layout::p_word(b, off, n, what) is Ok {
        bytes::lemma_le_unique(b.subrange(off, off + n));
    }
}

/// Bytes are spelled by themselves.
proof fn lemma_u8(b: Seq<u8>, off: int, what: &'static str)
    requires
        0 <= off,
    ensures
        layout::p_u8(b, off, what) matches Ok((x, o)) ==> {
            &&& o == off + 1
            &&& bytes::spans(b, off, o, seq![x])
        },
{
    lemma_word(b, off, 1, what);
    bytes::lemma_pow256();
    reveal_with_fuel(layout::le, 2);
    if let Ok((x, o)) = layout::p_u8(b, off, what) {
        let m: nat = int_bytes::magnitude(b.subrange(off, off + 1));
        assert(layout::le(m, 1) =~= seq![x]);
    }
}

/// Half words are spelled by their bytes.
proof fn lemma_u16(b: Seq<u8>, off: int, what: &'static str)
    requires
        0 <= off,
    ensures
        layout::p_u16(b, off, what) matches Ok((x, o)) ==> {
            &&& o == off + 2
            &&& bytes::spans(b, off, o, layout::le(x as nat, 2))
        },
{
    lemma_word(b, off, 2, what);
    bytes::lemma_pow256();
}

/// Wires and counts are spelled by their bytes.
pub proof fn lemma_u32(b: Seq<u8>, off: int, what: &'static str)
    requires
        0 <= off,
    ensures
        layout::p_u32(b, off, what) matches Ok((x, o)) ==> {
            &&& o == off + 4
            &&& bytes::spans(b, off, o, layout::le32(x))
        },
{
    lemma_word(b, off, 4, what);
    bytes::lemma_pow256();
}

/// Extents are spelled by their bytes.
pub proof fn lemma_u64(b: Seq<u8>, off: int, what: &'static str)
    requires
        0 <= off,
    ensures
        layout::p_u64(b, off, what) matches Ok((x, o)) ==> {
            &&& o == off + 8
            &&& bytes::spans(b, off, o, layout::le64(x))
        },
{
    lemma_word(b, off, 8, what);
    bytes::lemma_pow256();
}

/// Lists of faithfully read items are read faithfully.
pub proof fn lemma_many<T>(
    b: Seq<u8>,
    off: int,
    item: spec_fn(int, Seq<T>) -> layout::Parsed<T>,
    f: spec_fn(T) -> Seq<u8>,
    n: int,
)
    requires
        0 <= off <= b.len(),
        forall|o: int, prev: Seq<T>|
            0 <= o <= b.len() ==> faithful(b, o, #[trigger] item(o, prev), f),
    ensures
        layout::many(item, off, n) matches Ok((xs, o)) ==> {
            &&& xs.len() == (if n > 0 {
                n
            } else {
                0
            })
            &&& bytes::spans(b, off, o, layout::spell_all(f, xs))
        },
    decreases n,
{
    if n <= 0 {
        assert(b.subrange(off, off) =~= layout::spell_all(f, Seq::<T>::empty()));
    } else {
        lemma_many(b, off, item, f, n - 1);
        if let Ok((xs, o)) = layout::many(item, off, n - 1) {
            assert(faithful(b, o, item(o, xs), f));
            if let Ok((x, o2)) = item(o, xs) {
                bytes::lemma_join(b, off, o, o2, layout::spell_all(f, xs), f(x));
                assert(xs.push(x).drop_last() =~= xs);
            }
        }
    }
}

/// Lists of wires are read faithfully.
pub proof fn lemma_wires(b: Seq<u8>, off: int, what: &'static str, n: int)
    requires
        0 <= off <= b.len(),
        0 <= n,
    ensures
        layout::many(layout::wire_item(b, what), off, n) matches Ok((xs, o)) ==> {
            &&& xs.len() == n
            &&& bytes::spans(b, off, o, layout::spell_wires(xs))
        },
{
    let item = layout::wire_item(b, what);
    let f = |w: u32| layout::le32(w);
    assert forall|o: int, prev: Seq<u32>| 0 <= o <= b.len() implies faithful(
        b,
        o,
        #[trigger] item(o, prev),
        f,
    ) by {
        lemma_u32(b, o, what);
    }
    lemma_many(b, off, item, f, n);
}

/// Counted lists of wires are read faithfully.
pub proof fn lemma_counted(b: Seq<u8>, off: int, count: &'static str, what: &'static str)
    requires
        0 <= off <= b.len(),
    ensures
        layout::p_counted(b, off, count, what) matches Ok((xs, o)) ==> {
            &&& xs.len() <= u32::MAX
            &&& bytes::spans(b, off, o, layout::spell_counted(xs))
        },
{
    lemma_u32(b, off, count);
    if let Ok((n, o)) = layout::p_u32(b, off, count) {
        lemma_wires(b, o, what, n as int);
        if let Ok((xs, o2)) = layout::many(layout::wire_item(b, what), o, n as int) {
            bytes::lemma_join(b, off, o, o2, layout::le32(n), layout::spell_wires(xs));
        }
    }
}

/// Counted lists of extents are read faithfully.
pub proof fn lemma_words(b: Seq<u8>, off: int, count: &'static str, what: &'static str)
    requires
        0 <= off <= b.len(),
    ensures
        layout::p_words(b, off, count, what) matches Ok((xs, o)) ==> {
            &&& xs.len() <= u32::MAX
            &&& bytes::spans(b, off, o, layout::spell_shape(xs))
        },
{
    lemma_u32(b, off, count);
    if let Ok((n, o)) = layout::p_u32(b, off, count) {
        let item = layout::word_item(b, what);
        let f = |w: u64| layout::le64(w);
        assert forall|o: int, prev: Seq<u64>| 0 <= o <= b.len() implies faithful(
            b,
            o,
            #[trigger] item(o, prev),
            f,
        ) by {
            lemma_u64(b, o, what);
        }
        lemma_many(b, o, item, f, n as int);
        if let Ok((xs, o2)) = layout::many(item, o, n as int) {
            bytes::lemma_join(b, off, o, o2, layout::le32(n), layout::spell_words(xs));
        }
    }
}

/// Element types are read faithfully.
pub proof fn lemma_dtype(b: Seq<u8>, off: int)
    requires
        0 <= off <= b.len(),
    ensures
        layout::p_dtype(b, off) matches Ok((d, o)) ==> bytes::spans(
            b,
            off,
            o,
            layout::spell_dtype(d),
        ),
{
    if let Ok((d, o)) = layout::p_dtype(b, off) {
        assert(b.subrange(off, o) =~= layout::spell_dtype(d));
    }
}

/// Tensor types are read faithfully.
pub proof fn lemma_type(b: Seq<u8>, off: int)
    requires
        0 <= off <= b.len(),
    ensures
        layout::p_type(b, off) matches Ok((t, o)) ==> {
            &&& t.shape.len() <= u32::MAX
            &&& bytes::spans(b, off, o, layout::spell_type(t))
        },
{
    lemma_dtype(b, off);
    if let Ok((d, o)) = layout::p_dtype(b, off) {
        lemma_words(b, o, "shape rank", "shape extent");
        if let Ok((s, o2)) = layout::p_shape(b, o) {
            bytes::lemma_join(b, off, o, o2, layout::spell_dtype(d), layout::spell_shape(s));
        }
    }
}

/// Rationals are read faithfully, and are in lowest terms.
pub proof fn lemma_rational(b: Seq<u8>, off: int)
    requires
        0 <= off <= b.len(),
    ensures
        layout::p_rational(b, off) matches Ok((q, o)) ==> {
            &&& scalar::canonical(q)
            &&& bytes::spans(b, off, o, layout::spell_rational(q))
        },
{
    if let Ok((q, o4)) = layout::p_rational(b, off) {
        lemma_u32(b, off, "rational numerator length");
        let o1: int = off + 4;
        lemma_u32(b, o1, "rational denominator length");
        let o2: int = off + 8;
        let num_len: u32 = layout::p_u32(b, off, "rational numerator length")->Ok_0.0;
        let den_len: u32 = layout::p_u32(b, o1, "rational denominator length")->Ok_0.0;
        let o3: int = o2 + num_len;
        let nb: Seq<u8> = b.subrange(o2, o3);
        let db: Seq<u8> = b.subrange(o3, o4);
        assert(layout::rational_defect(nb, db) is None);
        int_bytes::lemma_minimal_unique(nb);
        int_bytes::lemma_magnitude_unique(db);
        bytes::lemma_join(b, off, o1, o2, layout::le32(num_len), layout::le32(den_len));
        bytes::lemma_join(
            b,
            off,
            o2,
            o3,
            layout::le32(num_len) + layout::le32(den_len),
            nb,
        );
        bytes::lemma_join(
            b,
            off,
            o3,
            o4,
            layout::le32(num_len) + layout::le32(den_len) + nb,
            db,
        );
    }
}

/// Lists of rationals are read faithfully.
pub proof fn lemma_rationals(b: Seq<u8>, off: int, n: int)
    requires
        0 <= off <= b.len(),
        0 <= n,
    ensures
        layout::many(layout::rational_item(b), off, n) matches Ok((qs, o)) ==> {
            &&& qs.len() == n
            &&& layout::all_canonical(qs)
            &&& bytes::spans(b, off, o, layout::spell_rationals(qs))
        },
{
    let item = layout::rational_item(b);
    let f = |q: scalar::Ratio| layout::spell_rational(q);
    assert forall|o: int, prev: Seq<scalar::Ratio>| 0 <= o <= b.len() implies faithful(
        b,
        o,
        #[trigger] item(o, prev),
        f,
    ) by {
        lemma_rational(b, o);
    }
    lemma_many(b, off, item, f, n);
    lemma_rationals_canonical(b, off, n);
}

/// Rationals that were read are in lowest terms.
proof fn lemma_rationals_canonical(b: Seq<u8>, off: int, n: int)
    requires
        0 <= off <= b.len(),
    ensures
        layout::many(layout::rational_item(b), off, n) matches Ok((qs, o)) ==> {
            &&& off <= o <= b.len()
            &&& layout::all_canonical(qs)
        },
    decreases n,
{
    if n > 0 {
        lemma_rationals_canonical(b, off, n - 1);
        if let Ok((xs, o)) = layout::many(layout::rational_item(b), off, n - 1) {
            lemma_rational(b, o);
        }
    }
}

/// Sets are read faithfully, and their members exist.
pub proof fn lemma_set(b: Seq<u8>, off: int, n: u32)
    requires
        0 <= off <= b.len(),
    ensures
        layout::p_set(b, off, n) matches Ok((s, o)) ==> {
            &&& forall|x: u32| #[trigger] s.contains(x) ==> x < n
            &&& layout::fits(s, n)
            &&& bytes::spans(b, off, o, layout::spell_set(s, n))
        },
{
    if let Ok((s, o)) = layout::p_set(b, off, n) {
        bytes::lemma_set_respells(b.subrange(off, o), n);
    }
}

/// Vertices are read faithfully, each with its coordinates.
proof fn lemma_vertices(b: Seq<u8>, off: int, dim: u32, n: int)
    requires
        0 <= off <= b.len(),
        0 <= n,
    ensures
        layout::many(layout::vertex_item(b, dim), off, n) matches Ok((vs, o)) ==> {
            &&& vs.len() == n
            &&& forall|i: int| 0 <= i < vs.len() ==> layout::all_canonical(#[trigger] vs[i])
            &&& bytes::spans(b, off, o, layout::spell_vertices(vs))
        },
{
    let item = layout::vertex_item(b, dim);
    let f = |v: Seq<scalar::Ratio>| layout::spell_rationals(v);
    assert forall|o: int, prev: Seq<Seq<scalar::Ratio>>| 0 <= o <= b.len() implies faithful(
        b,
        o,
        #[trigger] item(o, prev),
        f,
    ) by {
        lemma_rationals(b, o, dim as int);
    }
    lemma_many(b, off, item, f, n);
    lemma_vertices_canonical(b, off, dim, n);
}

/// Coordinates that were read are in lowest terms.
proof fn lemma_vertices_canonical(b: Seq<u8>, off: int, dim: u32, n: int)
    requires
        0 <= off <= b.len(),
    ensures
        layout::many(layout::vertex_item(b, dim), off, n) matches Ok((vs, o)) ==> {
            &&& off <= o <= b.len()
            &&& forall|i: int| 0 <= i < vs.len() ==> layout::all_canonical(#[trigger] vs[i])
        },
    decreases n,
{
    if n > 0 {
        lemma_vertices_canonical(b, off, dim, n - 1);
        if let Ok((xs, o)) = layout::many(layout::vertex_item(b, dim), off, n - 1) {
            lemma_rationals(b, o, dim as int);
        }
    }
}

/// Simplices are read faithfully, and in order.
proof fn lemma_simplices(b: Seq<u8>, off: int, n: u32, count: int)
    requires
        0 <= off <= b.len(),
        0 <= count,
    ensures
        layout::many(layout::simplex_item(b, n), off, count) matches Ok((xs, o)) ==> {
            &&& xs.len() == count
            &&& order::steps(xs)
            &&& forall|i: int| 0 <= i < xs.len() ==> layout::fits(#[trigger] xs[i], n)
            &&& bytes::spans(b, off, o, layout::spell_sets(xs, n))
        },
{
    let item = layout::simplex_item(b, n);
    let f = |s: Set<u32>| layout::spell_set(s, n);
    assert forall|o: int, prev: Seq<Set<u32>>| 0 <= o <= b.len() implies faithful(
        b,
        o,
        #[trigger] item(o, prev),
        f,
    ) by {
        lemma_set(b, o, n);
    }
    lemma_many(b, off, item, f, count);
    lemma_simplices_step(b, off, n, count);
}

/// Simplices that were read do not come before the one in front, and their vertices exist.
proof fn lemma_simplices_step(b: Seq<u8>, off: int, n: u32, count: int)
    requires
        0 <= off <= b.len(),
    ensures
        layout::many(layout::simplex_item(b, n), off, count) matches Ok((xs, o)) ==> {
            &&& off <= o <= b.len()
            &&& order::steps(xs)
            &&& forall|i: int| 0 <= i < xs.len() ==> layout::fits(#[trigger] xs[i], n)
        },
    decreases count,
{
    if count > 0 {
        lemma_simplices_step(b, off, n, count - 1);
        if let Ok((xs, o)) = layout::many(layout::simplex_item(b, n), off, count - 1) {
            lemma_set(b, o, n);
        }
    }
}

/// The vertices of cells that were read exist.
proof fn lemma_cells_fit(b: Seq<u8>, off: int, n: u32, count: int)
    requires
        0 <= off <= b.len(),
    ensures
        layout::many(layout::cell_item(b, n), off, count) matches Ok((xs, o)) ==> {
            &&& off <= o <= b.len()
            &&& forall|i: int| 0 <= i < xs.len() ==> layout::fits((#[trigger] xs[i]).0, n)
            &&& forall|i: int| 0 <= i < xs.len() ==> layout::fits((#[trigger] xs[i]).1, n)
        },
    decreases count,
{
    if count > 0 {
        lemma_cells_fit(b, off, n, count - 1);
        if let Ok((xs, o)) = layout::many(layout::cell_item(b, n), off, count - 1) {
            lemma_set(b, o, n);
            if let Ok((mask, o1)) = layout::p_set(b, o, n) {
                lemma_set(b, o1, n);
            }
        }
    }
}

/// Cells are read faithfully.
proof fn lemma_cells(b: Seq<u8>, off: int, n: u32, count: int)
    requires
        0 <= off <= b.len(),
        0 <= count,
    ensures
        layout::many(layout::cell_item(b, n), off, count) matches Ok((xs, o)) ==> {
            &&& xs.len() == count
            &&& forall|i: int| 0 <= i < xs.len() ==> layout::fits((#[trigger] xs[i]).0, n)
            &&& forall|i: int| 0 <= i < xs.len() ==> layout::fits((#[trigger] xs[i]).1, n)
            &&& bytes::spans(b, off, o, layout::spell_cells(xs, n))
        },
{
    let item = layout::cell_item(b, n);
    let f = |c: (Set<u32>, Set<u32>)| layout::spell_cell(c, n);
    assert forall|o: int, prev: Seq<(Set<u32>, Set<u32>)>| 0 <= o <= b.len() implies faithful(
        b,
        o,
        #[trigger] item(o, prev),
        f,
    ) by {
        lemma_set(b, o, n);
        if let Ok((mask, o1)) = layout::p_set(b, o, n) {
            lemma_set(b, o1, n);
            if let Ok((ext, o2)) = layout::p_set(b, o1, n) {
                bytes::lemma_join(
                    b,
                    o,
                    o1,
                    o2,
                    layout::spell_set(mask, n),
                    layout::spell_set(ext, n),
                );
            }
        }
    }
    lemma_many(b, off, item, f, count);
    lemma_cells_fit(b, off, n, count);
}

/// The bytes of simplices and cells.
pub open spec fn spell_faces(
    simplices: Seq<Set<u32>>,
    cells: Seq<(Set<u32>, Set<u32>)>,
    n: u32,
) -> Seq<u8> {
    layout::le32(simplices.len() as u32) + layout::spell_sets(layout::arranged(simplices), n)
        + layout::le32(cells.len() as u32) + layout::spell_cells(cells, n)
}

/// Simplices and cells are read faithfully.
proof fn lemma_faces(b: Seq<u8>, off: int, n: u32)
    requires
        0 <= off <= b.len(),
    ensures
        layout::p_faces(b, off, n) matches Ok(((simplices, cells), o)) ==> {
            &&& forall|i: int| 0 <= i < simplices.len() ==> layout::fits(#[trigger] simplices[i], n)
            &&& forall|i: int| 0 <= i < cells.len() ==> layout::fits((#[trigger] cells[i]).0, n)
            &&& forall|i: int| 0 <= i < cells.len() ==> layout::fits((#[trigger] cells[i]).1, n)
            &&& bytes::spans(b, off, o, spell_faces(simplices, cells, n))
        },
{
    if let Ok(((simplices, cells), o4)) = layout::p_faces(b, off, n) {
        lemma_u32(b, off, "simplex count");
        let o1: int = off + 4;
        let n_simplices: u32 = layout::p_u32(b, off, "simplex count")->Ok_0.0;
        lemma_simplices(b, o1, n, n_simplices as int);
        let o2: int = layout::many(layout::simplex_item(b, n), o1, n_simplices as int)->Ok_0.1;
        order::lemma_arranged_fixed(simplices);
        lemma_u32(b, o2, "cell count");
        let o3: int = o2 + 4;
        let n_cells: u32 = layout::p_u32(b, o2, "cell count")->Ok_0.0;
        lemma_cells(b, o3, n, n_cells as int);
        let s1: Seq<u8> = layout::le32(n_simplices);
        let s2: Seq<u8> = layout::spell_sets(simplices, n);
        let s3: Seq<u8> = layout::le32(n_cells);
        let s4: Seq<u8> = layout::spell_cells(cells, n);
        bytes::lemma_join(b, off, o1, o2, s1, s2);
        bytes::lemma_join(b, off, o2, o3, s1 + s2, s3);
        bytes::lemma_join(b, off, o3, o4, s1 + s2 + s3, s4);
    }
}

/// The spelling of a complex, its faces taken together.
pub proof fn lemma_complex_spelling(c: simplex::ComplexModel)
    ensures
        layout::spell_complex(c) == layout::le32(c.vertices.len() as u32) + layout::le32(c.amb_dim)
            + layout::spell_vertices(c.vertices) + spell_faces(
            c.simplices,
            c.cells,
            c.vertices.len() as u32,
        ),
{
    let n: u32 = c.vertices.len() as u32;
    let head: Seq<u8> = layout::le32(n) + layout::le32(c.amb_dim) + layout::spell_vertices(
        c.vertices,
    );
    assert(layout::spell_complex(c) =~= head + spell_faces(c.simplices, c.cells, n));
}

/// Complexes are read faithfully.
pub proof fn lemma_complex(b: Seq<u8>, off: int)
    requires
        0 <= off <= b.len(),
    ensures
        layout::p_complex(b, off) matches Ok((c, o)) ==> {
            &&& layout::complex_canonical(c)
            &&& layout::complex_fits(c)
            &&& bytes::spans(b, off, o, layout::spell_complex(c))
        },
{
    if let Ok((c, o4)) = layout::p_complex(b, off) {
        lemma_u32(b, off, "vertex count");
        let o1: int = off + 4;
        let n: u32 = layout::p_u32(b, off, "vertex count")->Ok_0.0;
        lemma_u32(b, o1, "ambient dimension");
        let o2: int = off + 8;
        lemma_vertices(b, o2, c.amb_dim, n as int);
        let o3: int = layout::many(layout::vertex_item(b, c.amb_dim), o2, n as int)->Ok_0.1;
        lemma_faces(b, o3, n);
        let s1: Seq<u8> = layout::le32(n);
        let s2: Seq<u8> = layout::le32(c.amb_dim);
        let s3: Seq<u8> = layout::spell_vertices(c.vertices);
        let s4: Seq<u8> = spell_faces(c.simplices, c.cells, n);
        bytes::lemma_join(b, off, o1, o2, s1, s2);
        bytes::lemma_join(b, off, o2, o3, s1 + s2, s3);
        bytes::lemma_join(b, off, o3, o4, s1 + s2 + s3, s4);
        lemma_complex_spelling(c);
    }
}

/// A payload that can be written.
pub open spec fn payload_writes(p: app::PayloadModel) -> bool {
    match p {
        app::PayloadModel::Rat(qs) => layout::all_canonical(qs),
        app::PayloadModel::Bits(bits) => layout::fits(layout::marked(bits), bits.len() as u32),
    }
}

/// Payloads are read faithfully.
proof fn lemma_payload(b: Seq<u8>, off: int, t: types::TypeModel)
    requires
        0 <= off <= b.len(),
    ensures
        layout::p_payload(b, off, t) matches Ok((p, o)) ==> {
            &&& payload_writes(p)
            &&& bytes::spans(b, off, o, layout::spell_payload(p))
        },
{
    let size: u64 = types::entries(t.shape);
    if t.dtype.kind == Kind::Rat {
        lemma_rationals(b, off, size as int);
    } else {
        let n: u32 = size as u32;
        lemma_set(b, off, n);
        if let Ok((s, o)) = layout::p_set(b, off, n) {
            lemma_marked(s, n);
        }
    }
}

/// Listing a set and marking the list gives the set back.
pub proof fn lemma_marked(s: Set<u32>, n: u32)
    requires
        forall|x: u32| #[trigger] s.contains(x) ==> x < n,
    ensures
        layout::marked(layout::listed_bits(s, n)) == s,
{
    let bits: Seq<bool> = layout::listed_bits(s, n);
    assert forall|w: u32| layout::marked(bits).contains(w) == s.contains(w) by {
        if s.contains(w) {
            assert(bits[w as int]);
        }
    }
    assert(layout::marked(bits) =~= s);
}

/// `const` bodies are read faithfully.
proof fn lemma_const(b: Seq<u8>, off: int, ts: Seq<types::TypeModel>)
    requires
        0 <= off <= b.len(),
    ensures
        layout::p_const(b, off, ts) matches Ok((a, o)) ==> {
            &&& a.tag() == 0
            &&& writes(ts, a)
            &&& bytes::spans(b, off, o, layout::spell_body(ts, a))
        },
{
    lemma_u32(b, off, "const output wire");
    if let Ok((out, o)) = layout::p_u32(b, off, "const output wire") {
        if let Ok(t) = layout::p_wtype(ts, out, off) {
            lemma_payload(b, o, t);
            if let Ok((value, o2)) = layout::p_payload(b, o, t) {
                bytes::lemma_join(
                    b,
                    off,
                    o,
                    o2,
                    layout::le32(out),
                    layout::spell_payload(value),
                );
            }
        }
    }
}

/// An application that can be written over a wire-type table.
pub open spec fn writes(ts: Seq<types::TypeModel>, a: app::AppModel) -> bool {
    match a {
        app::AppModel::Const { value, .. } => payload_writes(value),
        app::AppModel::Contract { output, .. } => output < ts.len(),
        app::AppModel::Cast { inp, out } => inp < ts.len() && out < ts.len(),
        _ => true,
    }
}

/// Bindings are read faithfully.
proof fn lemma_bindings(b: Seq<u8>, off: int, n: int)
    requires
        0 <= off <= b.len(),
        0 <= n,
    ensures
        layout::many(layout::binding_item(b), off, n) matches Ok((xs, o)) ==> {
            &&& xs.len() == n
            &&& bytes::spans(b, off, o, layout::spell_bindings(xs))
        },
{
    let item = layout::binding_item(b);
    let f = |x: Seq<u32>| layout::spell_counted(x);
    assert forall|o: int, prev: Seq<Seq<u32>>| 0 <= o <= b.len() implies faithful(
        b,
        o,
        #[trigger] item(o, prev),
        f,
    ) by {
        lemma_counted(b, o, "in-binding length", "in-binding entry");
    }
    lemma_many(b, off, item, f, n);
}

/// The ends of `contract` bodies are read faithfully.
proof fn lemma_contract_tail(b: Seq<u8>, off: int, n: int)
    requires
        0 <= off <= b.len(),
        0 <= n,
    ensures
        layout::p_contract_tail(b, off, n) matches Ok(((extents, ins, out), o)) ==> bytes::spans(
            b,
            off,
            o,
            layout::spell_shape(extents) + layout::spell_bindings(ins) + layout::spell_counted(out),
        ),
{
    lemma_words(b, off, "contract extent count", "contract extent");
    if let Ok((extents, o1)) = layout::p_words(
        b,
        off,
        "contract extent count",
        "contract extent",
    ) {
        lemma_bindings(b, o1, n);
        if let Ok((ins, o2)) = layout::many(layout::binding_item(b), o1, n) {
            lemma_counted(b, o2, "out-binding length", "out-binding entry");
            if let Ok((out, o3)) = layout::p_counted(
                b,
                o2,
                "out-binding length",
                "out-binding entry",
            ) {
                let s1: Seq<u8> = layout::spell_shape(extents);
                let s2: Seq<u8> = layout::spell_bindings(ins);
                bytes::lemma_join(b, off, o1, o2, s1, s2);
                bytes::lemma_join(b, off, o2, o3, s1 + s2, layout::spell_counted(out));
            }
        }
    }
}

/// `contract` bodies are read faithfully.
proof fn lemma_contract(b: Seq<u8>, off: int, ts: Seq<types::TypeModel>)
    requires
        0 <= off <= b.len(),
    ensures
        layout::p_contract(b, off, ts) matches Ok((a, o)) ==> {
            &&& a.tag() == 1
            &&& writes(ts, a)
            &&& bytes::spans(b, off, o, layout::spell_body(ts, a))
        },
{
    if let Ok((a, o4)) = layout::p_contract(b, off, ts) {
        lemma_dtype(b, off);
        let (dtype, o1) = layout::p_dtype(b, off)->Ok_0;
        lemma_counted(b, o1, "contract input count", "contract input wire");
        let (inputs, o2) = layout::p_counted(
            b,
            o1,
            "contract input count",
            "contract input wire",
        )->Ok_0;
        lemma_u32(b, o2, "contract output wire");
        let (output, o3) = layout::p_u32(b, o2, "contract output wire")->Ok_0;
        lemma_contract_tail(b, o3, inputs.len() as int);
        let ((extents, ins, out), o5) = layout::p_contract_tail(
            b,
            o3,
            inputs.len() as int,
        )->Ok_0;
        let s1: Seq<u8> = layout::spell_dtype(dtype);
        let s2: Seq<u8> = layout::spell_counted(inputs);
        let s3: Seq<u8> = layout::le32(output);
        let t1: Seq<u8> = layout::spell_shape(extents);
        let t2: Seq<u8> = layout::spell_bindings(ins);
        let t3: Seq<u8> = layout::spell_counted(out);
        bytes::lemma_join(b, off, o1, o2, s1, s2);
        bytes::lemma_join(b, off, o2, o3, s1 + s2, s3);
        bytes::lemma_join(b, off, o3, o4, s1 + s2 + s3, t1 + t2 + t3);
        assert(s1 + s2 + s3 + (t1 + t2 + t3) =~= s1 + s2 + s3 + t1 + t2 + t3);
    }
}

/// `cast` bodies are read faithfully.
proof fn lemma_cast(b: Seq<u8>, off: int, ts: Seq<types::TypeModel>)
    requires
        0 <= off <= b.len(),
    ensures
        layout::p_cast(b, off, ts) matches Ok((a, o)) ==> {
            &&& a.tag() == 2
            &&& writes(ts, a)
            &&& bytes::spans(b, off, o, layout::spell_body(ts, a))
        },
{
    if let Ok((a, o5)) = layout::p_cast(b, off, ts) {
        lemma_dtype(b, off);
        let (from, o1) = layout::p_dtype(b, off)->Ok_0;
        lemma_dtype(b, o1);
        let (to, o2) = layout::p_dtype(b, o1)->Ok_0;
        lemma_words(b, o2, "shape rank", "shape extent");
        let (shape, o3) = layout::p_shape(b, o2)->Ok_0;
        lemma_u32(b, o3, "cast input wire");
        let (inp, o4) = layout::p_u32(b, o3, "cast input wire")->Ok_0;
        lemma_u32(b, o4, "cast output wire");
        let (out, o6) = layout::p_u32(b, o4, "cast output wire")->Ok_0;
        let s1: Seq<u8> = layout::spell_dtype(from);
        let s2: Seq<u8> = layout::spell_dtype(to);
        let s3: Seq<u8> = layout::spell_shape(shape);
        let s4: Seq<u8> = layout::le32(inp);
        bytes::lemma_join(b, off, o1, o2, s1, s2);
        bytes::lemma_join(b, off, o2, o3, s1 + s2, s3);
        bytes::lemma_join(b, off, o3, o4, s1 + s2 + s3, s4);
        bytes::lemma_join(b, off, o4, o5, s1 + s2 + s3 + s4, layout::le32(out));
    }
}

/// `cell` bodies are read faithfully.
proof fn lemma_cell(b: Seq<u8>, off: int, ts: Seq<types::TypeModel>)
    requires
        0 <= off <= b.len(),
    ensures
        layout::p_cell(b, off) matches Ok((a, o)) ==> {
            &&& a.tag() == 3
            &&& writes(ts, a)
            &&& bytes::spans(b, off, o, layout::spell_body(ts, a))
        },
{
    if let Ok((a, o3)) = layout::p_cell(b, off) {
        lemma_u32(b, off, "cell complex index");
        let (idx, o1) = layout::p_u32(b, off, "cell complex index")->Ok_0;
        lemma_u32(b, o1, "cell input wire");
        let (inp, o2) = layout::p_u32(b, o1, "cell input wire")->Ok_0;
        lemma_counted(b, o2, "cell output count", "cell output wire");
        let (outs, o4) = layout::p_counted(b, o2, "cell output count", "cell output wire")->Ok_0;
        bytes::lemma_join(b, off, o1, o2, layout::le32(idx), layout::le32(inp));
        bytes::lemma_join(
            b,
            off,
            o2,
            o3,
            layout::le32(idx) + layout::le32(inp),
            layout::spell_counted(outs),
        );
    }
}

/// A shape and two wires are read faithfully.
proof fn lemma_shaped(b: Seq<u8>, off: int, inp: &'static str, out: &'static str)
    requires
        0 <= off <= b.len(),
    ensures
        layout::p_shaped(b, off, inp, out) matches Ok(((shape, i, x), o)) ==> bytes::spans(
            b,
            off,
            o,
            layout::spell_shape(shape) + layout::le32(i) + layout::le32(x),
        ),
{
    if let Ok(((shape, i, x), o3)) = layout::p_shaped(b, off, inp, out) {
        lemma_words(b, off, "shape rank", "shape extent");
        let o1: int = layout::p_shape(b, off)->Ok_0.1;
        lemma_u32(b, o1, inp);
        lemma_u32(b, o1 + 4, out);
        bytes::lemma_join(b, off, o1, o1 + 4, layout::spell_shape(shape), layout::le32(i));
        bytes::lemma_join(
            b,
            off,
            o1 + 4,
            o3,
            layout::spell_shape(shape) + layout::le32(i),
            layout::le32(x),
        );
    }
}

/// `copy` bodies are read faithfully.
proof fn lemma_copy(b: Seq<u8>, off: int, ts: Seq<types::TypeModel>)
    requires
        0 <= off <= b.len(),
    ensures
        layout::p_copy(b, off) matches Ok((a, o)) ==> {
            &&& a.tag() == 6
            &&& writes(ts, a)
            &&& bytes::spans(b, off, o, layout::spell_body(ts, a))
        },
{
    if let Ok((a, o3)) = layout::p_copy(b, off) {
        lemma_u32(b, off, "copy output count");
        let (n, o1) = layout::p_u32(b, off, "copy output count")->Ok_0;
        lemma_u32(b, o1, "copy input wire");
        let (inp, o2) = layout::p_u32(b, o1, "copy input wire")->Ok_0;
        lemma_wires(b, o2, "copy output wire", n as int);
        let (outs, o4) = layout::many(
            layout::wire_item(b, "copy output wire"),
            o2,
            n as int,
        )->Ok_0;
        bytes::lemma_join(b, off, o1, o2, layout::le32(n), layout::le32(inp));
        bytes::lemma_join(
            b,
            off,
            o2,
            o3,
            layout::le32(n) + layout::le32(inp),
            layout::spell_wires(outs),
        );
    }
}

/// `swap` bodies are read faithfully.
proof fn lemma_swap(b: Seq<u8>, off: int, ts: Seq<types::TypeModel>)
    requires
        0 <= off <= b.len(),
    ensures
        layout::p_swap(b, off) matches Ok((a, o)) ==> {
            &&& a.tag() == 8
            &&& writes(ts, a)
            &&& bytes::spans(b, off, o, layout::spell_body(ts, a))
        },
{
    if let Ok((a, o4)) = layout::p_swap(b, off) {
        lemma_u32(b, off, "swap in1");
        lemma_u32(b, off + 4, "swap in2");
        lemma_u32(b, off + 8, "swap out1");
        lemma_u32(b, off + 12, "swap out2");
        let s1: Seq<u8> = layout::le32(layout::p_u32(b, off, "swap in1")->Ok_0.0);
        let s2: Seq<u8> = layout::le32(layout::p_u32(b, off + 4, "swap in2")->Ok_0.0);
        let s3: Seq<u8> = layout::le32(layout::p_u32(b, off + 8, "swap out1")->Ok_0.0);
        let s4: Seq<u8> = layout::le32(layout::p_u32(b, off + 12, "swap out2")->Ok_0.0);
        bytes::lemma_join(b, off, off + 4, off + 8, s1, s2);
        bytes::lemma_join(b, off, off + 8, off + 12, s1 + s2, s3);
        bytes::lemma_join(b, off, off + 12, off + 16, s1 + s2 + s3, s4);
    }
}

/// `stack` bodies are read faithfully.
proof fn lemma_stack(b: Seq<u8>, off: int, ts: Seq<types::TypeModel>)
    requires
        0 <= off <= b.len(),
    ensures
        layout::p_stack(b, off) matches Ok((a, o)) ==> {
            &&& a.tag() == 9
            &&& writes(ts, a)
            &&& bytes::spans(b, off, o, layout::spell_body(ts, a))
        },
{
    if let Ok((a, o2)) = layout::p_stack(b, off) {
        lemma_counted(b, off, "stack input count", "stack input wire");
        let (inputs, o1) = layout::p_counted(b, off, "stack input count", "stack input wire")->Ok_0;
        lemma_u32(b, o1, "stack output wire");
        let (output, o3) = layout::p_u32(b, o1, "stack output wire")->Ok_0;
        bytes::lemma_join(b, off, o1, o2, layout::spell_counted(inputs), layout::le32(output));
    }
}

/// Bodies are read faithfully.
proof fn lemma_body(b: Seq<u8>, off: int, tag: u8, header: int, ts: Seq<types::TypeModel>)
    requires
        0 <= off <= b.len(),
    ensures
        layout::p_body(b, off, tag, header, ts) matches Ok((a, o)) ==> {
            &&& a.tag() == tag
            &&& writes(ts, a)
            &&& bytes::spans(b, off, o, layout::spell_body(ts, a))
        },
{
    lemma_const(b, off, ts);
    lemma_contract(b, off, ts);
    lemma_cast(b, off, ts);
    lemma_cell(b, off, ts);
    lemma_shaped(b, off, "reshape input wire", "reshape output wire");
    lemma_shaped(b, off, "broadcast input wire", "broadcast output wire");
    lemma_copy(b, off, ts);
    lemma_u32(b, off, "delete input wire");
    lemma_swap(b, off, ts);
    lemma_stack(b, off, ts);
}

/// Applications are read faithfully.
pub proof fn lemma_app(b: Seq<u8>, off: int, ts: Seq<types::TypeModel>)
    requires
        0 <= off <= b.len(),
    ensures
        layout::p_app(b, off, ts) matches Ok((a, o)) ==> {
            &&& writes(ts, a)
            &&& bytes::spans(b, off, o, layout::spell_app(ts, a))
        },
{
    if let Ok((a, o4)) = layout::p_app(b, off, ts) {
        lemma_u8(b, off, "application tag");
        let tag: u8 = layout::p_u8(b, off, "application tag")->Ok_0.0;
        lemma_u8(b, off + 1, "rounding mode");
        lemma_u16(b, off + 2, "application pad");
        lemma_body(b, off + 4, tag, off, ts);
        let head: Seq<u8> = seq![tag, layout::ROUND_EXACT, 0u8, 0u8];
        assert(layout::le(0, 2) =~= seq![0u8, 0u8]) by {
            reveal_with_fuel(layout::le, 3);
        }
        assert(b[off] == b.subrange(off, off + 1)[0]);
        assert(b[off + 1] == b.subrange(off + 1, off + 2)[0]);
        assert(b[off + 2] == b.subrange(off + 2, off + 4)[0]);
        assert(b[off + 3] == b.subrange(off + 2, off + 4)[1]);
        assert(b.subrange(off, off + 4) =~= head);
        bytes::lemma_join(b, off, off + 4, o4, head, layout::spell_body(ts, a));
    }
}

/// Wire-type tables are read faithfully.
proof fn lemma_types(b: Seq<u8>, off: int)
    requires
        0 <= off <= b.len(),
    ensures
        layout::p_types(b, off) matches Ok((ts, o)) ==> {
            &&& ts.len() <= u32::MAX
            &&& bytes::spans(
                b,
                off,
                o,
                layout::le32(ts.len() as u32) + layout::spell_types(ts),
            )
        },
{
    lemma_u32(b, off, "wire-type count");
    if let Ok((n, o)) = layout::p_u32(b, off, "wire-type count") {
        let item = layout::type_item(b);
        let f = |t: types::TypeModel| layout::spell_type(t);
        assert forall|o: int, prev: Seq<types::TypeModel>| 0 <= o <= b.len() implies faithful(
            b,
            o,
            #[trigger] item(o, prev),
            f,
        ) by {
            lemma_type(b, o);
        }
        lemma_many(b, o, item, f, n as int);
        if let Ok((ts, o2)) = layout::many(item, o, n as int) {
            bytes::lemma_join(b, off, o, o2, layout::le32(n), layout::spell_types(ts));
        }
    }
}

/// Complex pools are read faithfully.
proof fn lemma_pool(b: Seq<u8>, off: int)
    requires
        0 <= off <= b.len(),
    ensures
        layout::p_pool(b, off) matches Ok((cs, o)) ==> {
            &&& forall|i: int| 0 <= i < cs.len() ==> layout::complex_canonical(#[trigger] cs[i])
            &&& forall|i: int| 0 <= i < cs.len() ==> layout::complex_fits(#[trigger] cs[i])
            &&& bytes::spans(
                b,
                off,
                o,
                layout::le32(cs.len() as u32) + layout::spell_pool(cs),
            )
        },
{
    lemma_u32(b, off, "complex count");
    if let Ok((n, o)) = layout::p_u32(b, off, "complex count") {
        let item = layout::complex_item(b);
        let f = |c: simplex::ComplexModel| layout::spell_complex(c);
        assert forall|o: int, prev: Seq<simplex::ComplexModel>| 0 <= o <= b.len() implies faithful(
            b,
            o,
            #[trigger] item(o, prev),
            f,
        ) by {
            lemma_complex(b, o);
        }
        lemma_many(b, o, item, f, n as int);
        lemma_pool_canonical(b, o, n as int);
        if let Ok((cs, o2)) = layout::many(item, o, n as int) {
            bytes::lemma_join(b, off, o, o2, layout::le32(n), layout::spell_pool(cs));
        }
    }
}

/// Complexes that were read have coordinates in lowest terms.
proof fn lemma_pool_canonical(b: Seq<u8>, off: int, n: int)
    requires
        0 <= off <= b.len(),
    ensures
        layout::many(layout::complex_item(b), off, n) matches Ok((cs, o)) ==> {
            &&& off <= o <= b.len()
            &&& forall|i: int| 0 <= i < cs.len() ==> layout::complex_canonical(#[trigger] cs[i])
            &&& forall|i: int| 0 <= i < cs.len() ==> layout::complex_fits(#[trigger] cs[i])
        },
    decreases n,
{
    if n > 0 {
        lemma_pool_canonical(b, off, n - 1);
        if let Ok((xs, o)) = layout::many(layout::complex_item(b), off, n - 1) {
            lemma_complex(b, o);
        }
    }
}

/// Applications are read faithfully, and can be written.
proof fn lemma_apps(b: Seq<u8>, off: int, ts: Seq<types::TypeModel>)
    requires
        0 <= off <= b.len(),
    ensures
        layout::p_apps(b, off, ts) matches Ok((xs, o)) ==> {
            &&& forall|i: int| 0 <= i < xs.len() ==> writes(ts, #[trigger] xs[i])
            &&& bytes::spans(
                b,
                off,
                o,
                layout::le32(xs.len() as u32) + layout::spell_apps(ts, xs),
            )
        },
{
    lemma_u32(b, off, "application count");
    if let Ok((n, o)) = layout::p_u32(b, off, "application count") {
        let item = layout::app_item(b, ts);
        let f = |a: app::AppModel| layout::spell_app(ts, a);
        assert forall|o: int, prev: Seq<app::AppModel>| 0 <= o <= b.len() implies faithful(
            b,
            o,
            #[trigger] item(o, prev),
            f,
        ) by {
            lemma_app(b, o, ts);
        }
        lemma_many(b, o, item, f, n as int);
        lemma_apps_write(b, o, ts, n as int);
        if let Ok((xs, o2)) = layout::many(item, o, n as int) {
            bytes::lemma_join(b, off, o, o2, layout::le32(n), layout::spell_apps(ts, xs));
        }
    }
}

/// Applications that were read can be written.
proof fn lemma_apps_write(b: Seq<u8>, off: int, ts: Seq<types::TypeModel>, n: int)
    requires
        0 <= off <= b.len(),
    ensures
        layout::many(layout::app_item(b, ts), off, n) matches Ok((xs, o)) ==> {
            &&& off <= o <= b.len()
            &&& forall|i: int| 0 <= i < xs.len() ==> writes(ts, #[trigger] xs[i])
        },
    decreases n,
{
    if n > 0 {
        lemma_apps_write(b, off, ts, n - 1);
        if let Ok((xs, o)) = layout::many(layout::app_item(b, ts), off, n - 1) {
            lemma_app(b, o, ts);
        }
    }
}

/// A graph whose complexes and applications can be written can be written.
pub proof fn lemma_no_refusal(net: graph::NetModel, n: int)
    requires
        n <= net.apps.len(),
        forall|i: int| 0 <= i < net.apps.len() ==> writes(net.wire_types, #[trigger] net.apps[i]),
    ensures
        layout::apps_refusal(net, n) is None,
    decreases n,
{
    if n > 0 {
        lemma_no_refusal(net, n - 1);
        assert(writes(net.wire_types, net.apps[n - 1]));
    }
}

/// A graph whose complexes and applications can be written is writable.
proof fn lemma_writable(net: graph::NetModel)
    requires
        forall|i: int|
            0 <= i < net.complexes.len() ==> layout::complex_fits(#[trigger] net.complexes[i]),
        forall|i: int| 0 <= i < net.apps.len() ==> writes(net.wire_types, #[trigger] net.apps[i]),
    ensures
        layout::writable(net),
{
    assert forall|i: int| 0 <= i < net.apps.len() implies layout::payload_fits(
        #[trigger] net.apps[i],
    ) by {
        assert(writes(net.wire_types, net.apps[i]));
    }
}

/// Bytes that are read give a graph that can be written, and it is written as those bytes:
/// decoding and then encoding is the identity.
pub proof fn law_decode_encode(b: Seq<u8>)
    ensures
        layout::parse(b) matches Ok(net) ==> {
            &&& layout::writable(net)
            &&& layout::refusal(net) is None
            &&& layout::spell(net) == b
        },
{
    if let Ok(net) = layout::parse(b) {
        let ts: Seq<types::TypeModel> = net.wire_types;
        lemma_types(b, 8);
        let o1: int = layout::p_types(b, 8)->Ok_0.1;
        lemma_pool(b, o1);
        let o2: int = layout::p_pool(b, o1)->Ok_0.1;
        lemma_apps(b, o2, ts);
        let o3: int = layout::p_apps(b, o2, ts)->Ok_0.1;
        lemma_counted(b, o3, "graph input count", "graph input wire");
        let o4: int = layout::p_counted(b, o3, "graph input count", "graph input wire")->Ok_0.1;
        lemma_counted(b, o4, "graph output count", "graph output wire");
        let o5: int = layout::p_counted(b, o4, "graph output count", "graph output wire")->Ok_0.1;
        assert(o5 == b.len());
        let s0: Seq<u8> = layout::magic();
        let s1: Seq<u8> = layout::le32(ts.len() as u32) + layout::spell_types(ts);
        let s2: Seq<u8> = layout::le32(net.complexes.len() as u32) + layout::spell_pool(
            net.complexes,
        );
        let s3: Seq<u8> = layout::le32(net.apps.len() as u32) + layout::spell_apps(ts, net.apps);
        let s4: Seq<u8> = layout::spell_counted(net.graph_inputs);
        let s5: Seq<u8> = layout::spell_counted(net.graph_outputs);
        assert(bytes::spans(b, 0, 8, s0));
        bytes::lemma_join(b, 0, 8, o1, s0, s1);
        bytes::lemma_join(b, 0, o1, o2, s0 + s1, s2);
        bytes::lemma_join(b, 0, o2, o3, s0 + s1 + s2, s3);
        bytes::lemma_join(b, 0, o3, o4, s0 + s1 + s2 + s3, s4);
        bytes::lemma_join(b, 0, o4, o5, s0 + s1 + s2 + s3 + s4, s5);
        lemma_spelling(net);
        assert(b.subrange(0, b.len() as int) =~= b);
        lemma_no_refusal(net, net.apps.len() as int);
        lemma_writable(net);
    }
}

/// The spelling of a graph, its counts taken with their lists.
pub proof fn lemma_spelling(net: graph::NetModel)
    ensures
        layout::spell(net) == layout::magic() + (layout::le32(net.wire_types.len() as u32)
            + layout::spell_types(net.wire_types)) + (layout::le32(net.complexes.len() as u32)
            + layout::spell_pool(net.complexes)) + (layout::le32(net.apps.len() as u32)
            + layout::spell_apps(net.wire_types, net.apps)) + layout::spell_counted(
            net.graph_inputs,
        ) + layout::spell_counted(net.graph_outputs),
{
    let s0: Seq<u8> = layout::magic();
    let a1: Seq<u8> = layout::le32(net.wire_types.len() as u32);
    let b1: Seq<u8> = layout::spell_types(net.wire_types);
    let a2: Seq<u8> = layout::le32(net.complexes.len() as u32);
    let b2: Seq<u8> = layout::spell_pool(net.complexes);
    let a3: Seq<u8> = layout::le32(net.apps.len() as u32);
    let b3: Seq<u8> = layout::spell_apps(net.wire_types, net.apps);
    lemma_regroup(s0, a1, b1);
    lemma_regroup(s0 + (a1 + b1), a2, b2);
    lemma_regroup(s0 + (a1 + b1) + (a2 + b2), a3, b3);
}

/// Appending is associative.
pub proof fn lemma_regroup(s: Seq<u8>, t: Seq<u8>, u: Seq<u8>)
    ensures
        s + t + u == s + (t + u),
{
    assert(s + t + u =~= s + (t + u));
}

} // verus!
