//! The wire format, written down twice: how a graph is spelled, and how bytes are read.
//!
//! All integers are little-endian. Wire identifiers have four bytes, extents eight. A
//! rational is the two lengths, the numerator in shortest two's complement and the
//! denominator as a shortest magnitude, in lowest terms. A set of vertices is a bitset over
//! the vertices, lowest bit first.

use super::super::app;
use super::super::app::Wire;
use super::super::graph;
use super::super::int_bytes;
use super::super::scalar;
use super::super::simplex;
use super::super::types;
use super::super::types::{Dtype, Ext, Kind, Sign};
use crate::nt;
use vstd::prelude::*;

verus! {

/// Why a graph cannot be written, or bytes cannot be read, as the contracts speak of it.
#[verifier::ext_equal]
pub enum CanonFault {
    /// A wire has no type.
    EncodeWireOutOfRange { app: u32, wire: Wire, table_len: u32 },
    /// A rational is not in lowest terms.
    EncodeNonCanonicalRational,
    /// The bytes end too early.
    Truncated { offset: int, needed: int, available: int, what: &'static str },
    /// The bytes do not start with the magic.
    BadMagic { got: Seq<u8> },
    /// A byte has no meaning.
    UnknownByte { offset: int, what: &'static str, got: u8 },
    /// A tag names no box.
    UnknownTag { offset: int, tag: u8 },
    /// An application header is not the canonical one.
    BadAppHeader { offset: int, round: u8, pad: u16 },
    /// A rational is not spelled canonically.
    NonCanonicalRational { offset: int, why: &'static str },
    /// A bitset has members that do not exist.
    BitsetOverflow { offset: int, n: u32 },
    /// Simplices are not in canonical order.
    NonCanonicalSimplexOrder { offset: int },
    /// A wire has no type.
    DecodeWireOutOfRange { offset: int, wire: Wire, table_len: u32 },
    /// A repeated field disagrees with the wire-type table.
    RedundantFieldMismatch { offset: int, what: &'static str },
    /// Bytes follow a complete graph.
    TrailingBytes { got: int },
    /// A count cannot be honest.
    LengthOverflow { offset: int, got: u64, what: &'static str },
}

/// What is read from an offset, and the offset behind it.
pub type Parsed<T> = Result<(T, int), CanonFault>;

/// The first bytes of every graph: `AXHN0001`.
pub const MAGIC: [u8; 8] = [0x41, 0x58, 0x48, 0x4e, 0x30, 0x30, 0x30, 0x31];

/// The first bytes of every graph.
pub open spec fn magic() -> Seq<u8> {
    MAGIC@
}

/// The rounding byte of every application.
pub const ROUND_EXACT: u8 = 4;

// ---- writing ----

/// The lowest `n` bytes of a number.
pub open spec fn le(x: nat, n: nat) -> Seq<u8>
    decreases n,
{
    if n == 0 {
        Seq::empty()
    } else {
        seq![(x % 256) as u8] + le(x / 256, (n - 1) as nat)
    }
}

/// Four bytes.
pub open spec fn le32(x: u32) -> Seq<u8> {
    le(x as nat, 4)
}

/// Eight bytes.
pub open spec fn le64(x: u64) -> Seq<u8> {
    le(x as nat, 8)
}

/// The spellings of a list, one behind the other.
pub open spec fn spell_all<T>(f: spec_fn(T) -> Seq<u8>, xs: Seq<T>) -> Seq<u8>
    decreases xs.len(),
{
    if xs.len() == 0 {
        Seq::empty()
    } else {
        spell_all(f, xs.drop_last()) + f(xs.last())
    }
}

/// A list of wires or indices.
pub open spec fn spell_wires(ws: Seq<u32>) -> Seq<u8> {
    spell_all(|w: u32| le32(w), ws)
}

/// A list of extents.
pub open spec fn spell_words(ws: Seq<u64>) -> Seq<u8> {
    spell_all(|w: u64| le64(w), ws)
}

/// A counted list of wires or indices.
pub open spec fn spell_counted(ws: Seq<u32>) -> Seq<u8> {
    le32(ws.len() as u32) + spell_wires(ws)
}

/// A rational.
pub open spec fn spell_rational(q: scalar::Ratio) -> Seq<u8> {
    let nb = int_bytes::signed_bytes(q.num);
    let db = int_bytes::magnitude_bytes(q.den as nat);
    le32(nb.len() as u32) + le32(db.len() as u32) + nb + db
}

/// A list of rationals.
pub open spec fn spell_rationals(qs: Seq<scalar::Ratio>) -> Seq<u8> {
    spell_all(|q: scalar::Ratio| spell_rational(q), qs)
}

/// An element type.
pub open spec fn spell_dtype(d: Dtype) -> Seq<u8> {
    seq![d.kind.code(), d.sign.code(), d.ext.code(), 0u8]
}

/// A shape.
pub open spec fn spell_shape(s: Seq<u64>) -> Seq<u8> {
    le32(s.len() as u32) + spell_words(s)
}

/// A tensor type.
pub open spec fn spell_type(t: types::TypeModel) -> Seq<u8> {
    spell_dtype(t.dtype) + spell_shape(t.shape)
}

/// The number of bytes of a bitset.
pub open spec fn bitset_len(n: int) -> int {
    (n + 7) / 8
}

/// The byte whose bit `j` says whether `f` holds of `base + j`.
pub open spec fn packed_byte(f: spec_fn(int) -> bool, base: int) -> u8 {
    ((if f(base) {
        1int
    } else {
        0
    }) + (if f(base + 1) {
        2int
    } else {
        0
    }) + (if f(base + 2) {
        4int
    } else {
        0
    }) + (if f(base + 3) {
        8int
    } else {
        0
    }) + (if f(base + 4) {
        16int
    } else {
        0
    }) + (if f(base + 5) {
        32int
    } else {
        0
    }) + (if f(base + 6) {
        64int
    } else {
        0
    }) + (if f(base + 7) {
        128int
    } else {
        0
    })) as u8
}

/// The bits for `n` places.
pub open spec fn packed(f: spec_fn(int) -> bool, n: int) -> Seq<u8> {
    Seq::new(bitset_len(n) as nat, |k: int| packed_byte(f, 8 * k))
}

/// Membership in a set.
pub open spec fn in_set(s: Set<u32>) -> spec_fn(int) -> bool {
    |i: int| i <= u32::MAX && s.contains(i as u32)
}

/// The places of a list that are set.
pub open spec fn marked(bits: Seq<bool>) -> Set<u32> {
    Set::new(|w: u32| exists|i: int| 0 <= i < bits.len() && #[trigger] bits[i] && i as u32 == w)
}

/// A set of vertices among `n`.
pub open spec fn spell_set(s: Set<u32>, n: u32) -> Seq<u8> {
    packed(in_set(s), n as int)
}

/// A cell among `n` vertices.
pub open spec fn spell_cell(c: (Set<u32>, Set<u32>), n: u32) -> Seq<u8> {
    spell_set(c.0, n) + spell_set(c.1, n)
}

/// `a` comes before `b`: it has fewer members, or as many and the lowest one that the two
/// do not share.
pub open spec fn before(a: Set<u32>, b: Set<u32>) -> bool {
    ||| a.len() < b.len()
    ||| a.len() == b.len() && exists|d: u32| splits(a, b, d)
}

/// `d` belongs to `a` alone, and below it the two sets agree.
pub open spec fn splits(a: Set<u32>, b: Set<u32>, d: u32) -> bool {
    &&& a.contains(d)
    &&& !b.contains(d)
    &&& forall|e: u32| e < d ==> (#[trigger] a.contains(e) <==> b.contains(e))
}

/// The list with `x` put behind the sets that it does not come before.
pub open spec fn inserted(ys: Seq<Set<u32>>, x: Set<u32>) -> Seq<Set<u32>>
    decreases ys.len(),
{
    if ys.len() == 0 || !before(x, ys.last()) {
        ys.push(x)
    } else {
        inserted(ys.drop_last(), x).push(ys.last())
    }
}

/// The list in canonical order.
pub open spec fn arranged(xs: Seq<Set<u32>>) -> Seq<Set<u32>>
    decreases xs.len(),
{
    if xs.len() == 0 {
        Seq::empty()
    } else {
        inserted(arranged(xs.drop_last()), xs.last())
    }
}

/// No set comes before the one in front of it.
pub open spec fn in_order(xs: Seq<Set<u32>>) -> bool {
    forall|i: int, j: int| 0 <= i < j < xs.len() ==> !before(#[trigger] xs[j], #[trigger] xs[i])
}

/// The vertices of a complex.
pub open spec fn spell_vertices(vs: Seq<Seq<scalar::Ratio>>) -> Seq<u8> {
    spell_all(|v: Seq<scalar::Ratio>| spell_rationals(v), vs)
}

/// A list of sets among `n` vertices.
pub open spec fn spell_sets(xs: Seq<Set<u32>>, n: u32) -> Seq<u8> {
    spell_all(|s: Set<u32>| spell_set(s, n), xs)
}

/// A list of cells among `n` vertices.
pub open spec fn spell_cells(xs: Seq<(Set<u32>, Set<u32>)>, n: u32) -> Seq<u8> {
    spell_all(|c: (Set<u32>, Set<u32>)| spell_cell(c, n), xs)
}

/// A complex.
pub open spec fn spell_complex(c: simplex::ComplexModel) -> Seq<u8> {
    let n = c.vertices.len() as u32;
    le32(n) + le32(c.amb_dim) + spell_vertices(c.vertices) + le32(c.simplices.len() as u32)
        + spell_sets(arranged(c.simplices), n) + le32(c.cells.len() as u32) + spell_cells(
        c.cells,
        n,
    )
}

/// A literal payload.
pub open spec fn spell_payload(p: app::PayloadModel) -> Seq<u8> {
    match p {
        app::PayloadModel::Rat(qs) => spell_rationals(qs),
        app::PayloadModel::Bits(bits) => spell_set(marked(bits), bits.len() as u32),
    }
}

/// The bindings of a contraction.
pub open spec fn spell_bindings(bs: Seq<Seq<u32>>) -> Seq<u8> {
    spell_all(|b: Seq<u32>| spell_counted(b), bs)
}

/// What follows the header of an application.
pub open spec fn spell_body(wire_types: Seq<types::TypeModel>, a: app::AppModel) -> Seq<u8> {
    match a {
        app::AppModel::Const { out, value } => le32(out) + spell_payload(value),
        app::AppModel::Contract { inputs, output, extents, in_bindings, out_binding } => {
            spell_dtype(wire_types[output as int].dtype) + spell_counted(inputs) + le32(output)
                + spell_shape(extents) + spell_bindings(in_bindings) + spell_counted(out_binding)
        },
        app::AppModel::Cast { inp, out } => spell_dtype(wire_types[inp as int].dtype)
            + spell_dtype(wire_types[out as int].dtype) + spell_shape(
            wire_types[inp as int].shape,
        ) + le32(inp) + le32(out),
        app::AppModel::Cell { complex_idx, inp, outs } => le32(complex_idx) + le32(inp)
            + spell_counted(outs),
        app::AppModel::Reshape { new_shape, inp, out } => spell_shape(new_shape) + le32(inp)
            + le32(out),
        app::AppModel::Broadcast { to_shape, inp, out } => spell_shape(to_shape) + le32(inp)
            + le32(out),
        app::AppModel::Copy { inp, outs } => le32(outs.len() as u32) + le32(inp) + spell_wires(
            outs,
        ),
        app::AppModel::Delete { inp } => le32(inp),
        app::AppModel::Swap { in1, in2, out1, out2 } => le32(in1) + le32(in2) + le32(out1) + le32(
            out2,
        ),
        app::AppModel::Stack { inputs, output } => spell_counted(inputs) + le32(output),
    }
}

/// An application.
pub open spec fn spell_app(wire_types: Seq<types::TypeModel>, a: app::AppModel) -> Seq<u8> {
    seq![a.tag(), ROUND_EXACT, 0u8, 0u8] + spell_body(wire_types, a)
}

/// The wire-type table.
pub open spec fn spell_types(ts: Seq<types::TypeModel>) -> Seq<u8> {
    spell_all(|t: types::TypeModel| spell_type(t), ts)
}

/// The complex pool.
pub open spec fn spell_pool(cs: Seq<simplex::ComplexModel>) -> Seq<u8> {
    spell_all(|c: simplex::ComplexModel| spell_complex(c), cs)
}

/// The applications.
pub open spec fn spell_apps(wire_types: Seq<types::TypeModel>, xs: Seq<app::AppModel>) -> Seq<u8> {
    spell_all(|a: app::AppModel| spell_app(wire_types, a), xs)
}

/// The canonical bytes of a graph.
pub open spec fn spell(net: graph::NetModel) -> Seq<u8> {
    magic() + le32(net.wire_types.len() as u32) + spell_types(net.wire_types) + le32(
        net.complexes.len() as u32,
    ) + spell_pool(net.complexes) + le32(net.apps.len() as u32) + spell_apps(
        net.wire_types,
        net.apps,
    ) + spell_counted(net.graph_inputs) + spell_counted(net.graph_outputs)
}

/// Every rational of a list is in lowest terms.
pub open spec fn all_canonical(qs: Seq<scalar::Ratio>) -> bool {
    forall|i: int| 0 <= i < qs.len() ==> scalar::canonical(#[trigger] qs[i])
}

/// Every coordinate of a complex is in lowest terms.
pub open spec fn complex_canonical(c: simplex::ComplexModel) -> bool {
    forall|i: int| 0 <= i < c.vertices.len() ==> all_canonical(#[trigger] c.vertices[i])
}

/// Why an application cannot be written, if it cannot.
pub open spec fn app_refusal(net: graph::NetModel, idx: u32, a: app::AppModel) -> Option<
    CanonFault,
> {
    let outside = |w: Wire|
        CanonFault::EncodeWireOutOfRange {
            app: idx,
            wire: w,
            table_len: net.wire_types.len() as u32,
        };
    match a {
        app::AppModel::Const { out, value } => match value {
            app::PayloadModel::Rat(qs) if !all_canonical(qs) => Some(
                CanonFault::EncodeNonCanonicalRational,
            ),
            _ => None,
        },
        app::AppModel::Contract { output, .. } if !net.knows(output) => Some(outside(output)),
        app::AppModel::Cast { inp, out } => if !net.knows(inp) {
            Some(outside(inp))
        } else if !net.knows(out) {
            Some(outside(out))
        } else {
            None
        },
        _ => None,
    }
}

/// Why the first application before `n` that cannot be written cannot be.
pub open spec fn apps_refusal(net: graph::NetModel, n: int) -> Option<CanonFault>
    decreases n,
{
    if n <= 0 {
        None
    } else {
        match apps_refusal(net, n - 1) {
            Some(e) => Some(e),
            None => app_refusal(net, (n - 1) as u32, net.apps[n - 1]),
        }
    }
}

/// Why a graph cannot be written, if it cannot.
pub open spec fn refusal(net: graph::NetModel) -> Option<CanonFault> {
    if exists|i: int| 0 <= i < net.complexes.len() && !complex_canonical(#[trigger] net.complexes[i]) {
        Some(CanonFault::EncodeNonCanonicalRational)
    } else {
        apps_refusal(net, net.apps.len() as int)
    }
}

/// The members of a set have a place in the bytes for `n` of them.
pub open spec fn fits(s: Set<u32>, n: u32) -> bool {
    forall|x: u32| #[trigger] s.contains(x) ==> x < 8 * bitset_len(n as int)
}

/// The vertices of a complex's simplices and cells have a place in their bytes.
pub open spec fn complex_fits(c: simplex::ComplexModel) -> bool {
    let n = c.vertices.len() as u32;
    &&& forall|i: int| 0 <= i < c.simplices.len() ==> fits(#[trigger] c.simplices[i], n)
    &&& forall|i: int| 0 <= i < c.cells.len() ==> fits((#[trigger] c.cells[i]).0, n)
    &&& forall|i: int| 0 <= i < c.cells.len() ==> fits((#[trigger] c.cells[i]).1, n)
}

/// The set bits of a literal have a place in its bytes.
pub open spec fn payload_fits(a: app::AppModel) -> bool {
    a matches app::AppModel::Const { value, .. } ==> (value matches app::PayloadModel::Bits(bits)
        ==> fits(marked(bits), bits.len() as u32))
}

/// Up to where a graph can be written, members have their places.
pub open spec fn writable(net: graph::NetModel) -> bool {
    &&& forall|i: int|
        0 <= i < net.complexes.len() && (forall|j: int|
            0 <= j <= i ==> complex_canonical(#[trigger] net.complexes[j])) ==> complex_fits(
            #[trigger] net.complexes[i],
        )
    &&& (forall|j: int| 0 <= j < net.complexes.len() ==> complex_canonical(#[trigger] net.complexes[j]))
        ==> forall|i: int|
        0 <= i < net.apps.len() && apps_refusal(net, i + 1) is None ==> payload_fits(
            #[trigger] net.apps[i],
        )
}

// ---- reading ----

/// The next `n` bytes.
pub open spec fn p_take(b: Seq<u8>, off: int, n: int, what: &'static str) -> Parsed<Seq<u8>> {
    if n > b.len() - off {
        Err(CanonFault::Truncated { offset: off, needed: n, available: b.len() - off, what })
    } else {
        Ok((b.subrange(off, off + n), off + n))
    }
}

/// A number of `n` bytes.
pub open spec fn p_word(b: Seq<u8>, off: int, n: int, what: &'static str) -> Parsed<nat> {
    match p_take(b, off, n, what) {
        Err(e) => Err(e),
        Ok((s, o)) => Ok((int_bytes::magnitude(s), o)),
    }
}

/// One byte.
pub open spec fn p_u8(b: Seq<u8>, off: int, what: &'static str) -> Parsed<u8> {
    match p_word(b, off, 1, what) {
        Err(e) => Err(e),
        Ok((x, o)) => Ok((x as u8, o)),
    }
}

/// Two bytes.
pub open spec fn p_u16(b: Seq<u8>, off: int, what: &'static str) -> Parsed<u16> {
    match p_word(b, off, 2, what) {
        Err(e) => Err(e),
        Ok((x, o)) => Ok((x as u16, o)),
    }
}

/// Four bytes.
pub open spec fn p_u32(b: Seq<u8>, off: int, what: &'static str) -> Parsed<u32> {
    match p_word(b, off, 4, what) {
        Err(e) => Err(e),
        Ok((x, o)) => Ok((x as u32, o)),
    }
}

/// Eight bytes.
pub open spec fn p_u64(b: Seq<u8>, off: int, what: &'static str) -> Parsed<u64> {
    match p_word(b, off, 8, what) {
        Err(e) => Err(e),
        Ok((x, o)) => Ok((x as u64, o)),
    }
}

/// `n` items, each read with those before it at hand.
pub open spec fn many<T>(item: spec_fn(int, Seq<T>) -> Parsed<T>, off: int, n: int) -> Parsed<Seq<T>>
    decreases n,
{
    if n <= 0 {
        Ok((Seq::empty(), off))
    } else {
        match many(item, off, n - 1) {
            Err(e) => Err(e),
            Ok((xs, o)) => match item(o, xs) {
                Err(e) => Err(e),
                Ok((x, o2)) => Ok((xs.push(x), o2)),
            },
        }
    }
}

/// A wire or an index.
pub open spec fn wire_item(b: Seq<u8>, what: &'static str) -> spec_fn(int, Seq<u32>) -> Parsed<u32> {
    |off: int, prev: Seq<u32>| p_u32(b, off, what)
}

/// An extent.
pub open spec fn word_item(b: Seq<u8>, what: &'static str) -> spec_fn(int, Seq<u64>) -> Parsed<u64> {
    |off: int, prev: Seq<u64>| p_u64(b, off, what)
}

/// A list of wires behind its count.
pub open spec fn p_counted(
    b: Seq<u8>,
    off: int,
    count: &'static str,
    what: &'static str,
) -> Parsed<Seq<u32>> {
    match p_u32(b, off, count) {
        Err(e) => Err(e),
        Ok((n, o)) => many(wire_item(b, what), o, n as int),
    }
}

/// An element type.
pub open spec fn p_dtype(b: Seq<u8>, off: int) -> Parsed<Dtype> {
    match p_take(b, off, 4, "dtype triple") {
        Err(e) => Err(e),
        Ok((s, o)) => match Kind::of_code(s[0]) {
            None => Err(CanonFault::UnknownByte { offset: off, what: "dtype kind", got: s[0] }),
            Some(kind) => match Sign::of_code(s[1]) {
                None => Err(
                    CanonFault::UnknownByte { offset: off + 1, what: "dtype sign", got: s[1] },
                ),
                Some(sign) => match Ext::of_code(s[2]) {
                    None => Err(
                        CanonFault::UnknownByte { offset: off + 2, what: "dtype ext", got: s[2] },
                    ),
                    Some(ext) => if s[3] != 0 {
                        Err(
                            CanonFault::UnknownByte {
                                offset: off + 3,
                                what: "dtype pad",
                                got: s[3],
                            },
                        )
                    } else {
                        Ok((Dtype { kind, sign, ext }, o))
                    },
                },
            },
        },
    }
}

/// Extents behind their count.
pub open spec fn p_words(
    b: Seq<u8>,
    off: int,
    count: &'static str,
    what: &'static str,
) -> Parsed<Seq<u64>> {
    match p_u32(b, off, count) {
        Err(e) => Err(e),
        Ok((n, o)) => many(word_item(b, what), o, n as int),
    }
}

/// A shape.
pub open spec fn p_shape(b: Seq<u8>, off: int) -> Parsed<Seq<u64>> {
    p_words(b, off, "shape rank", "shape extent")
}

/// A tensor type.
pub open spec fn p_type(b: Seq<u8>, off: int) -> Parsed<types::TypeModel> {
    match p_dtype(b, off) {
        Err(e) => Err(e),
        Ok((dtype, o)) => match p_shape(b, o) {
            Err(e) => Err(e),
            Ok((shape, o2)) => Ok((types::TypeModel { dtype, shape }, o2)),
        },
    }
}

/// A tensor type.
pub open spec fn type_item(b: Seq<u8>) -> spec_fn(int, Seq<types::TypeModel>) -> Parsed<
    types::TypeModel,
> {
    |off: int, prev: Seq<types::TypeModel>| p_type(b, off)
}

/// Why the bytes of a numerator and a denominator are not canonical, if they are not.
pub open spec fn rational_defect(nb: Seq<u8>, db: Seq<u8>) -> Option<&'static str> {
    if !int_bytes::minimal(nb) {
        Some("non-minimal numerator encoding")
    } else if int_bytes::magnitude(db) < 1 {
        Some("denominator < 1")
    } else if db.last() == 0 {
        Some("non-minimal denominator encoding")
    } else if nt::gcd(nt::abs(int_bytes::twos(nb)) as nat, int_bytes::magnitude(db)) != 1 {
        Some("gcd(num, den) != 1")
    } else {
        None
    }
}

/// A rational.
pub open spec fn p_rational(b: Seq<u8>, off: int) -> Parsed<scalar::Ratio> {
    match p_u32(b, off, "rational numerator length") {
        Err(e) => Err(e),
        Ok((num_len, o1)) => match p_u32(b, o1, "rational denominator length") {
            Err(e) => Err(e),
            Ok((den_len, o2)) => if num_len == 0 || den_len == 0 {
                Err(
                    CanonFault::NonCanonicalRational {
                        offset: off,
                        why: "zero-length component",
                    },
                )
            } else {
                match p_take(b, o2, num_len as int, "rational numerator bytes") {
                    Err(e) => Err(e),
                    Ok((nb, o3)) => match p_take(
                        b,
                        o3,
                        den_len as int,
                        "rational denominator bytes",
                    ) {
                        Err(e) => Err(e),
                        Ok((db, o4)) => match rational_defect(nb, db) {
                            Some(why) => Err(
                                CanonFault::NonCanonicalRational { offset: off, why },
                            ),
                            None => Ok(
                                (
                                    scalar::Ratio {
                                        num: int_bytes::twos(nb),
                                        den: int_bytes::magnitude(db) as int,
                                    },
                                    o4,
                                ),
                            ),
                        },
                    },
                }
            },
        },
    }
}

/// A rational.
pub open spec fn rational_item(b: Seq<u8>) -> spec_fn(int, Seq<scalar::Ratio>) -> Parsed<
    scalar::Ratio,
> {
    |off: int, prev: Seq<scalar::Ratio>| p_rational(b, off)
}

/// A power of two below 256.
pub open spec fn bit_value(j: int) -> int {
    if j == 0 {
        1
    } else if j == 1 {
        2
    } else if j == 2 {
        4
    } else if j == 3 {
        8
    } else if j == 4 {
        16
    } else if j == 5 {
        32
    } else if j == 6 {
        64
    } else {
        128
    }
}

/// Bit `j` of a byte.
pub open spec fn bit(x: u8, j: int) -> bool {
    (x as int / bit_value(j)) % 2 == 1
}

/// Bit `i` of a list of bytes.
pub open spec fn bit_at(s: Seq<u8>, i: int) -> bool {
    bit(s[i / 8], i % 8)
}

/// A bit is set beyond the `n` places.
pub open spec fn stray(s: Seq<u8>, n: int) -> bool {
    exists|i: int| n <= i < 8 * s.len() && #[trigger] bit_at(s, i)
}

/// The places below `n` whose bits are set.
pub open spec fn places(s: Seq<u8>, n: int) -> Set<u32> {
    Set::new(|i: u32| i < n && bit_at(s, i as int))
}

/// A set of vertices among `n`.
pub open spec fn p_set(b: Seq<u8>, off: int, n: u32) -> Parsed<Set<u32>> {
    match p_take(b, off, bitset_len(n as int), "bitset") {
        Err(e) => Err(e),
        Ok((s, o)) => if stray(s, n as int) {
            Err(CanonFault::BitsetOverflow { offset: off, n })
        } else {
            Ok((places(s, n as int), o))
        },
    }
}

/// A vertex of `dim` coordinates.
pub open spec fn vertex_item(b: Seq<u8>, dim: u32) -> spec_fn(int, Seq<Seq<scalar::Ratio>>) -> Parsed<
    Seq<scalar::Ratio>,
> {
    |off: int, prev: Seq<Seq<scalar::Ratio>>| many(rational_item(b), off, dim as int)
}

/// A simplex among `n` vertices, which does not come before the last one.
pub open spec fn simplex_item(b: Seq<u8>, n: u32) -> spec_fn(int, Seq<Set<u32>>) -> Parsed<
    Set<u32>,
> {
    |off: int, prev: Seq<Set<u32>>|
        match p_set(b, off, n) {
            Err(e) => Err(e),
            Ok((s, o)) => if prev.len() > 0 && before(s, prev.last()) {
                Err(CanonFault::NonCanonicalSimplexOrder { offset: off })
            } else {
                Ok((s, o))
            },
        }
}

/// A cell among `n` vertices.
pub open spec fn cell_item(b: Seq<u8>, n: u32) -> spec_fn(int, Seq<(Set<u32>, Set<u32>)>) -> Parsed<
    (Set<u32>, Set<u32>),
> {
    |off: int, prev: Seq<(Set<u32>, Set<u32>)>|
        match p_set(b, off, n) {
            Err(e) => Err(e),
            Ok((mask, o)) => match p_set(b, o, n) {
                Err(e) => Err(e),
                Ok((ext, o2)) => Ok(((mask, ext), o2)),
            },
        }
}

/// Why a count of items without bytes is refused, if it is: it exceeds what remains by more
/// than the slack.
pub open spec fn count_refusal(
    b: Seq<u8>,
    off: int,
    n: u32,
    empty: bool,
    what: &'static str,
) -> Option<CanonFault> {
    if empty && n > b.len() - off + 1024 {
        Some(CanonFault::LengthOverflow { offset: off, got: n as u64, what })
    } else {
        None
    }
}

/// The simplices and cells of a complex among `n` vertices.
pub open spec fn p_faces(b: Seq<u8>, off: int, n: u32) -> Parsed<
    (Seq<Set<u32>>, Seq<(Set<u32>, Set<u32>)>),
> {
    match p_u32(b, off, "simplex count") {
        Err(e) => Err(e),
        Ok((n_simplices, o1)) => match count_refusal(b, o1, n_simplices, n == 0, "simplices") {
            Some(e) => Err(e),
            None => match many(simplex_item(b, n), o1, n_simplices as int) {
                Err(e) => Err(e),
                Ok((simplices, o2)) => match p_u32(b, o2, "cell count") {
                    Err(e) => Err(e),
                    Ok((n_cells, o3)) => match count_refusal(b, o3, n_cells, n == 0, "cells") {
                        Some(e) => Err(e),
                        None => match many(cell_item(b, n), o3, n_cells as int) {
                            Err(e) => Err(e),
                            Ok((cells, o4)) => Ok(((simplices, cells), o4)),
                        },
                    },
                },
            },
        },
    }
}

/// A complex.
pub open spec fn p_complex(b: Seq<u8>, off: int) -> Parsed<simplex::ComplexModel> {
    match p_u32(b, off, "vertex count") {
        Err(e) => Err(e),
        Ok((n, o1)) => match p_u32(b, o1, "ambient dimension") {
            Err(e) => Err(e),
            Ok((amb_dim, o2)) => match count_refusal(b, o2, n, amb_dim == 0, "vertices") {
                Some(e) => Err(e),
                None => match many(vertex_item(b, amb_dim), o2, n as int) {
                    Err(e) => Err(e),
                    Ok((vertices, o3)) => match p_faces(b, o3, n) {
                        Err(e) => Err(e),
                        Ok(((simplices, cells), o4)) => Ok(
                            (
                                simplex::ComplexModel { amb_dim, vertices, simplices, cells },
                                o4,
                            ),
                        ),
                    },
                },
            },
        },
    }
}

/// A complex.
pub open spec fn complex_item(b: Seq<u8>) -> spec_fn(int, Seq<simplex::ComplexModel>) -> Parsed<
    simplex::ComplexModel,
> {
    |off: int, prev: Seq<simplex::ComplexModel>| p_complex(b, off)
}

/// The type of a wire that was read at `off`.
pub open spec fn p_wtype(ts: Seq<types::TypeModel>, w: Wire, off: int) -> Result<
    types::TypeModel,
    CanonFault,
> {
    if w < ts.len() {
        Ok(ts[w as int])
    } else {
        Err(
            CanonFault::DecodeWireOutOfRange {
                offset: off,
                wire: w,
                table_len: ts.len() as u32,
            },
        )
    }
}

/// For each of `n` places, whether it belongs to a set.
pub open spec fn listed_bits(s: Set<u32>, n: u32) -> Seq<bool> {
    Seq::new(n as nat, |i: int| s.contains(i as u32))
}

/// A literal of type `t`.
pub open spec fn p_payload(b: Seq<u8>, off: int, t: types::TypeModel) -> Parsed<app::PayloadModel> {
    let size = types::entries(t.shape);
    if t.dtype.kind == Kind::Rat {
        match many(rational_item(b), off, size as int) {
            Err(e) => Err(e),
            Ok((qs, o)) => Ok((app::PayloadModel::Rat(qs), o)),
        }
    } else {
        let n = size as u32;
        match p_set(b, off, n) {
            Err(e) => Err(e),
            Ok((s, o)) => Ok((app::PayloadModel::Bits(listed_bits(s, n)), o)),
        }
    }
}

/// The body of a `const` application.
pub open spec fn p_const(b: Seq<u8>, off: int, ts: Seq<types::TypeModel>) -> Parsed<app::AppModel> {
    match p_u32(b, off, "const output wire") {
        Err(e) => Err(e),
        Ok((out, o)) => match p_wtype(ts, out, off) {
            Err(e) => Err(e),
            Ok(t) => match p_payload(b, o, t) {
                Err(e) => Err(e),
                Ok((value, o2)) => Ok((app::AppModel::Const { out, value }, o2)),
            },
        },
    }
}

/// The bindings of one input.
pub open spec fn binding_item(b: Seq<u8>) -> spec_fn(int, Seq<Seq<u32>>) -> Parsed<Seq<u32>> {
    |off: int, prev: Seq<Seq<u32>>| p_counted(b, off, "in-binding length", "in-binding entry")
}

/// What follows the output wire of a `contract` application of `n` inputs.
pub open spec fn p_contract_tail(b: Seq<u8>, off: int, n: int) -> Parsed<
    (Seq<u64>, Seq<Seq<u32>>, Seq<u32>),
> {
    match p_words(b, off, "contract extent count", "contract extent") {
        Err(e) => Err(e),
        Ok((extents, o1)) => match many(binding_item(b), o1, n) {
            Err(e) => Err(e),
            Ok((in_bindings, o2)) => match p_counted(
                b,
                o2,
                "out-binding length",
                "out-binding entry",
            ) {
                Err(e) => Err(e),
                Ok((out_binding, o3)) => Ok(((extents, in_bindings, out_binding), o3)),
            },
        },
    }
}

/// The body of a `contract` application.
pub open spec fn p_contract(b: Seq<u8>, off: int, ts: Seq<types::TypeModel>) -> Parsed<
    app::AppModel,
> {
    match p_dtype(b, off) {
        Err(e) => Err(e),
        Ok((dtype, o1)) => match p_counted(b, o1, "contract input count", "contract input wire") {
            Err(e) => Err(e),
            Ok((inputs, o2)) => match p_u32(b, o2, "contract output wire") {
                Err(e) => Err(e),
                Ok((output, o3)) => match p_wtype(ts, output, o2) {
                    Err(e) => Err(e),
                    Ok(t) => if t.dtype != dtype {
                        Err(
                            CanonFault::RedundantFieldMismatch {
                                offset: off,
                                what: "contract output dtype",
                            },
                        )
                    } else {
                        match p_contract_tail(b, o3, inputs.len() as int) {
                            Err(e) => Err(e),
                            Ok(((extents, in_bindings, out_binding), o4)) => Ok(
                                (
                                    app::AppModel::Contract {
                                        inputs,
                                        output,
                                        extents,
                                        in_bindings,
                                        out_binding,
                                    },
                                    o4,
                                ),
                            ),
                        }
                    },
                },
            },
        },
    }
}

/// The wires of a `cast` application and the checks of its repeated fields.
pub open spec fn p_cast_wires(
    b: Seq<u8>,
    off: int,
    field_off: int,
    from: Dtype,
    to: Dtype,
    shape: Seq<u64>,
    ts: Seq<types::TypeModel>,
) -> Parsed<app::AppModel> {
    match p_u32(b, off, "cast input wire") {
        Err(e) => Err(e),
        Ok((inp, o1)) => match p_u32(b, o1, "cast output wire") {
            Err(e) => Err(e),
            Ok((out, o2)) => match p_wtype(ts, inp, off) {
                Err(e) => Err(e),
                Ok(t) => if t.dtype != from || t.shape != shape {
                    Err(
                        CanonFault::RedundantFieldMismatch {
                            offset: field_off,
                            what: "cast input dtype/shape",
                        },
                    )
                } else {
                    match p_wtype(ts, out, o1) {
                        Err(e) => Err(e),
                        Ok(u) => if u.dtype != to {
                            Err(
                                CanonFault::RedundantFieldMismatch {
                                    offset: field_off,
                                    what: "cast output dtype",
                                },
                            )
                        } else {
                            Ok((app::AppModel::Cast { inp, out }, o2))
                        },
                    }
                },
            },
        },
    }
}

/// The body of a `cast` application.
pub open spec fn p_cast(b: Seq<u8>, off: int, ts: Seq<types::TypeModel>) -> Parsed<app::AppModel> {
    match p_dtype(b, off) {
        Err(e) => Err(e),
        Ok((from, o1)) => match p_dtype(b, o1) {
            Err(e) => Err(e),
            Ok((to, o2)) => match p_shape(b, o2) {
                Err(e) => Err(e),
                Ok((shape, o3)) => p_cast_wires(b, o3, off, from, to, shape, ts),
            },
        },
    }
}

/// The body of a `cell` application.
pub open spec fn p_cell(b: Seq<u8>, off: int) -> Parsed<app::AppModel> {
    match p_u32(b, off, "cell complex index") {
        Err(e) => Err(e),
        Ok((complex_idx, o1)) => match p_u32(b, o1, "cell input wire") {
            Err(e) => Err(e),
            Ok((inp, o2)) => match p_counted(b, o2, "cell output count", "cell output wire") {
                Err(e) => Err(e),
                Ok((outs, o3)) => Ok((app::AppModel::Cell { complex_idx, inp, outs }, o3)),
            },
        },
    }
}

/// A shape and two wires.
pub open spec fn p_shaped(b: Seq<u8>, off: int, inp: &'static str, out: &'static str) -> Parsed<
    (Seq<u64>, Wire, Wire),
> {
    match p_shape(b, off) {
        Err(e) => Err(e),
        Ok((shape, o1)) => match p_u32(b, o1, inp) {
            Err(e) => Err(e),
            Ok((i, o2)) => match p_u32(b, o2, out) {
                Err(e) => Err(e),
                Ok((o, o3)) => Ok(((shape, i, o), o3)),
            },
        },
    }
}

/// The body of a `reshape` application.
pub open spec fn p_reshape(b: Seq<u8>, off: int) -> Parsed<app::AppModel> {
    match p_shaped(b, off, "reshape input wire", "reshape output wire") {
        Err(e) => Err(e),
        Ok(((new_shape, inp, out), o)) => Ok((app::AppModel::Reshape { new_shape, inp, out }, o)),
    }
}

/// The body of a `broadcast` application.
pub open spec fn p_broadcast(b: Seq<u8>, off: int) -> Parsed<app::AppModel> {
    match p_shaped(b, off, "broadcast input wire", "broadcast output wire") {
        Err(e) => Err(e),
        Ok(((to_shape, inp, out), o)) => Ok((app::AppModel::Broadcast { to_shape, inp, out }, o)),
    }
}

/// The body of a `copy` application.
pub open spec fn p_copy(b: Seq<u8>, off: int) -> Parsed<app::AppModel> {
    match p_u32(b, off, "copy output count") {
        Err(e) => Err(e),
        Ok((n, o1)) => match p_u32(b, o1, "copy input wire") {
            Err(e) => Err(e),
            Ok((inp, o2)) => match many(wire_item(b, "copy output wire"), o2, n as int) {
                Err(e) => Err(e),
                Ok((outs, o3)) => Ok((app::AppModel::Copy { inp, outs }, o3)),
            },
        },
    }
}

/// The body of a `delete` application.
pub open spec fn p_delete(b: Seq<u8>, off: int) -> Parsed<app::AppModel> {
    match p_u32(b, off, "delete input wire") {
        Err(e) => Err(e),
        Ok((inp, o)) => Ok((app::AppModel::Delete { inp }, o)),
    }
}

/// The body of a `swap` application.
pub open spec fn p_swap(b: Seq<u8>, off: int) -> Parsed<app::AppModel> {
    match p_u32(b, off, "swap in1") {
        Err(e) => Err(e),
        Ok((in1, o1)) => match p_u32(b, o1, "swap in2") {
            Err(e) => Err(e),
            Ok((in2, o2)) => match p_u32(b, o2, "swap out1") {
                Err(e) => Err(e),
                Ok((out1, o3)) => match p_u32(b, o3, "swap out2") {
                    Err(e) => Err(e),
                    Ok((out2, o4)) => Ok((app::AppModel::Swap { in1, in2, out1, out2 }, o4)),
                },
            },
        },
    }
}

/// The body of a `stack` application.
pub open spec fn p_stack(b: Seq<u8>, off: int) -> Parsed<app::AppModel> {
    match p_counted(b, off, "stack input count", "stack input wire") {
        Err(e) => Err(e),
        Ok((inputs, o1)) => match p_u32(b, o1, "stack output wire") {
            Err(e) => Err(e),
            Ok((output, o2)) => Ok((app::AppModel::Stack { inputs, output }, o2)),
        },
    }
}

/// The body of an application by its tag.
pub open spec fn p_body(
    b: Seq<u8>,
    off: int,
    tag: u8,
    header: int,
    ts: Seq<types::TypeModel>,
) -> Parsed<app::AppModel> {
    if tag == 0 {
        p_const(b, off, ts)
    } else if tag == 1 {
        p_contract(b, off, ts)
    } else if tag == 2 {
        p_cast(b, off, ts)
    } else if tag == 3 {
        p_cell(b, off)
    } else if tag == 4 {
        p_reshape(b, off)
    } else if tag == 5 {
        p_broadcast(b, off)
    } else if tag == 6 {
        p_copy(b, off)
    } else if tag == 7 {
        p_delete(b, off)
    } else if tag == 8 {
        p_swap(b, off)
    } else if tag == 9 {
        p_stack(b, off)
    } else {
        Err(CanonFault::UnknownTag { offset: header, tag })
    }
}

/// An application.
pub open spec fn p_app(b: Seq<u8>, off: int, ts: Seq<types::TypeModel>) -> Parsed<app::AppModel> {
    match p_u8(b, off, "application tag") {
        Err(e) => Err(e),
        Ok((tag, o1)) => match p_u8(b, o1, "rounding mode") {
            Err(e) => Err(e),
            Ok((round, o2)) => match p_u16(b, o2, "application pad") {
                Err(e) => Err(e),
                Ok((pad, o3)) => if round != ROUND_EXACT || pad != 0 {
                    Err(CanonFault::BadAppHeader { offset: off, round, pad })
                } else {
                    p_body(b, o3, tag, off, ts)
                },
            },
        },
    }
}

/// An application.
pub open spec fn app_item(b: Seq<u8>, ts: Seq<types::TypeModel>) -> spec_fn(
    int,
    Seq<app::AppModel>,
) -> Parsed<app::AppModel> {
    |off: int, prev: Seq<app::AppModel>| p_app(b, off, ts)
}

/// The wire-type table behind its count.
pub open spec fn p_types(b: Seq<u8>, off: int) -> Parsed<Seq<types::TypeModel>> {
    match p_u32(b, off, "wire-type count") {
        Err(e) => Err(e),
        Ok((n, o)) => many(type_item(b), o, n as int),
    }
}

/// The complex pool behind its count.
pub open spec fn p_pool(b: Seq<u8>, off: int) -> Parsed<Seq<simplex::ComplexModel>> {
    match p_u32(b, off, "complex count") {
        Err(e) => Err(e),
        Ok((n, o)) => many(complex_item(b), o, n as int),
    }
}

/// The applications behind their count.
pub open spec fn p_apps(b: Seq<u8>, off: int, ts: Seq<types::TypeModel>) -> Parsed<
    Seq<app::AppModel>,
> {
    match p_u32(b, off, "application count") {
        Err(e) => Err(e),
        Ok((n, o)) => many(app_item(b, ts), o, n as int),
    }
}

/// The graph inputs and outputs.
pub open spec fn p_interface(b: Seq<u8>, off: int) -> Parsed<(Seq<Wire>, Seq<Wire>)> {
    match p_counted(b, off, "graph input count", "graph input wire") {
        Err(e) => Err(e),
        Ok((ins, o1)) => match p_counted(b, o1, "graph output count", "graph output wire") {
            Err(e) => Err(e),
            Ok((outs, o2)) => Ok(((ins, outs), o2)),
        },
    }
}

/// A graph behind the magic.
pub open spec fn p_net(b: Seq<u8>, off: int) -> Parsed<graph::NetModel> {
    match p_types(b, off) {
        Err(e) => Err(e),
        Ok((wire_types, o1)) => match p_pool(b, o1) {
            Err(e) => Err(e),
            Ok((complexes, o2)) => match p_apps(b, o2, wire_types) {
                Err(e) => Err(e),
                Ok((apps, o3)) => match p_interface(b, o3) {
                    Err(e) => Err(e),
                    Ok(((graph_inputs, graph_outputs), o4)) => Ok(
                        (
                            graph::NetModel {
                                wire_types,
                                complexes,
                                apps,
                                graph_inputs,
                                graph_outputs,
                            },
                            o4,
                        ),
                    ),
                },
            },
        },
    }
}

/// The graph that bytes spell, or why they spell none.
pub open spec fn parse(b: Seq<u8>) -> Result<graph::NetModel, CanonFault> {
    match p_take(b, 0, 8, "magic") {
        Err(e) => Err(e),
        Ok((m, o)) => if m != magic() {
            Err(CanonFault::BadMagic { got: m })
        } else {
            match p_net(b, o) {
                Err(e) => Err(e),
                Ok((net, o2)) => if o2 != b.len() {
                    Err(CanonFault::TrailingBytes { got: b.len() - o2 })
                } else {
                    Ok(net)
                },
            }
        },
    }
}

} // verus!
