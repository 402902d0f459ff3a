//! What bytes behind a graph change: nothing of what is read before them.

use super::super::app;
use super::super::graph;
use super::super::scalar;
use super::super::simplex;
use super::super::types;
use super::layout;
use vstd::prelude::*;

verus! {

/// `d` begins with `b`.
pub open spec fn extends(b: Seq<u8>, d: Seq<u8>) -> bool {
    &&& b.len() <= d.len()
    &&& forall|i: int| 0 <= i < b.len() ==> #[trigger] d[i] == b[i]
}

/// What was read at `off` within `len` bytes is read again, and ends within them.
pub open spec fn keeps<T>(
    r: layout::Parsed<T>,
    again: layout::Parsed<T>,
    off: int,
    len: int,
) -> bool {
    r matches Ok((x, o)) ==> again == r && off <= o <= len
}

proof fn lemma_take(b: Seq<u8>, d: Seq<u8>)
    requires
        extends(b, d),
    ensures
        forall|off: int, n: int, what: &'static str|
            0 <= off <= b.len() && 0 <= n ==> keeps(
                #[trigger] layout::p_take(b, off, n, what),
                layout::p_take(d, off, n, what),
                off,
                b.len() as int,
            ),
{
    assert forall|off: int, n: int, what: &'static str|
        0 <= off <= b.len() && 0 <= n implies keeps(
        #[trigger] layout::p_take(b, off, n, what),
        layout::p_take(d, off, n, what),
        off,
        b.len() as int,
    ) by {
        if n <= b.len() - off {
            assert(b.subrange(off, off + n) =~= d.subrange(off, off + n));
        }
    }
}

proof fn lemma_words(b: Seq<u8>, d: Seq<u8>)
    requires
        extends(b, d),
    ensures
        forall|off: int, what: &'static str|
            0 <= off <= b.len() ==> keeps(
                #[trigger] layout::p_u8(b, off, what),
                layout::p_u8(d, off, what),
                off,
                b.len() as int,
            ),
        forall|off: int, what: &'static str|
            0 <= off <= b.len() ==> keeps(
                #[trigger] layout::p_u16(b, off, what),
                layout::p_u16(d, off, what),
                off,
                b.len() as int,
            ),
        forall|off: int, what: &'static str|
            0 <= off <= b.len() ==> keeps(
                #[trigger] layout::p_u32(b, off, what),
                layout::p_u32(d, off, what),
                off,
                b.len() as int,
            ),
        forall|off: int, what: &'static str|
            0 <= off <= b.len() ==> keeps(
                #[trigger] layout::p_u64(b, off, what),
                layout::p_u64(d, off, what),
                off,
                b.len() as int,
            ),
        forall|off: int|
            0 <= off <= b.len() ==> keeps(
                #[trigger] layout::p_dtype(b, off),
                layout::p_dtype(d, off),
                off,
                b.len() as int,
            ),
        forall|off: int, n: u32|
            0 <= off <= b.len() ==> keeps(
                #[trigger] layout::p_set(b, off, n),
                layout::p_set(d, off, n),
                off,
                b.len() as int,
            ),
{
    lemma_take(b, d);
}

/// A list is read again where each item is.
proof fn lemma_many<T>(
    item: spec_fn(int, Seq<T>) -> layout::Parsed<T>,
    again: spec_fn(int, Seq<T>) -> layout::Parsed<T>,
    off: int,
    n: int,
    len: int,
)
    requires
        0 <= off <= len,
        forall|o: int, prev: Seq<T>|
            0 <= o <= len ==> keeps(#[trigger] item(o, prev), again(o, prev), o, len),
    ensures
        keeps(layout::many(item, off, n), layout::many(again, off, n), off, len),
    decreases n,
{
    if n > 0 {
        lemma_many(item, again, off, n - 1, len);
        if let Ok((xs, o)) = layout::many(item, off, n - 1) {
            assert(keeps(item(o, xs), again(o, xs), o, len));
        }
    }
}

proof fn lemma_lists(b: Seq<u8>, d: Seq<u8>)
    requires
        extends(b, d),
    ensures
        forall|off: int, n: int, what: &'static str|
            0 <= off <= b.len() ==> keeps(
                #[trigger] layout::many(layout::wire_item(b, what), off, n),
                layout::many(layout::wire_item(d, what), off, n),
                off,
                b.len() as int,
            ),
        forall|off: int, count: &'static str, what: &'static str|
            0 <= off <= b.len() ==> keeps(
                #[trigger] layout::p_counted(b, off, count, what),
                layout::p_counted(d, off, count, what),
                off,
                b.len() as int,
            ),
        forall|off: int, count: &'static str, what: &'static str|
            0 <= off <= b.len() ==> keeps(
                #[trigger] layout::p_words(b, off, count, what),
                layout::p_words(d, off, count, what),
                off,
                b.len() as int,
            ),
{
    let len: int = b.len() as int;
    lemma_words(b, d);
    assert forall|off: int, n: int, what: &'static str| 0 <= off <= len implies keeps(
        #[trigger] layout::many(layout::wire_item(b, what), off, n),
        layout::many(layout::wire_item(d, what), off, n),
        off,
        len,
    ) by {
        lemma_many(layout::wire_item(b, what), layout::wire_item(d, what), off, n, len);
    }
    assert forall|off: int, count: &'static str, what: &'static str|
        0 <= off <= len implies keeps(
        #[trigger] layout::p_words(b, off, count, what),
        layout::p_words(d, off, count, what),
        off,
        len,
    ) by {
        assert(keeps(layout::p_u32(b, off, count), layout::p_u32(d, off, count), off, len));
        if let Ok((n, o)) = layout::p_u32(b, off, count) {
            lemma_many(
                layout::word_item(b, what),
                layout::word_item(d, what),
                o,
                n as int,
                len,
            );
        }
    }
    assert forall|off: int, count: &'static str, what: &'static str|
        0 <= off <= len implies keeps(
        #[trigger] layout::p_counted(b, off, count, what),
        layout::p_counted(d, off, count, what),
        off,
        len,
    ) by {
        assert(keeps(layout::p_u32(b, off, count), layout::p_u32(d, off, count), off, len));
        if let Ok((n, o)) = layout::p_u32(b, off, count) {
            lemma_many(
                layout::wire_item(b, what),
                layout::wire_item(d, what),
                o,
                n as int,
                len,
            );
        }
    }
}

proof fn lemma_type(b: Seq<u8>, d: Seq<u8>, off: int)
    requires
        extends(b, d),
        0 <= off <= b.len(),
    ensures
        keeps(layout::p_type(b, off), layout::p_type(d, off), off, b.len() as int),
{
    lemma_words(b, d);
    lemma_lists(b, d);
}

proof fn lemma_rational(b: Seq<u8>, d: Seq<u8>, off: int)
    requires
        extends(b, d),
        0 <= off <= b.len(),
    ensures
        keeps(layout::p_rational(b, off), layout::p_rational(d, off), off, b.len() as int),
{
    lemma_take(b, d);
    lemma_words(b, d);
}

proof fn lemma_rationals(b: Seq<u8>, d: Seq<u8>, off: int, n: int)
    requires
        extends(b, d),
        0 <= off <= b.len(),
    ensures
        keeps(
            layout::many(layout::rational_item(b), off, n),
            layout::many(layout::rational_item(d), off, n),
            off,
            b.len() as int,
        ),
{
    let item = layout::rational_item(b);
    let again = layout::rational_item(d);
    let len: int = b.len() as int;
    assert forall|o: int, prev: Seq<scalar::Ratio>| 0 <= o <= len implies keeps(
        #[trigger] item(o, prev),
        again(o, prev),
        o,
        len,
    ) by {
        lemma_rational(b, d, o);
    }
    lemma_many(item, again, off, n, len);
}

proof fn lemma_faces(b: Seq<u8>, d: Seq<u8>, off: int, n: u32)
    requires
        extends(b, d),
        0 <= off <= b.len(),
    ensures
        keeps(layout::p_faces(b, off, n), layout::p_faces(d, off, n), off, b.len() as int),
{
    let len: int = b.len() as int;
    lemma_words(b, d);
    let what: &'static str = "simplex count";
    assert(keeps(layout::p_u32(b, off, what), layout::p_u32(d, off, what), off, len));
    if let Ok((k, o1)) = layout::p_u32(b, off, what) {
        lemma_many(
            layout::simplex_item(b, n),
            layout::simplex_item(d, n),
            o1,
            k as int,
            len,
        );
        if let Ok((simplices, o2)) = layout::many(layout::simplex_item(b, n), o1, k as int) {
            assert(keeps(
                layout::p_u32(b, o2, "cell count"),
                layout::p_u32(d, o2, "cell count"),
                o2,
                len,
            ));
            if let Ok((m, o3)) = layout::p_u32(b, o2, "cell count") {
                lemma_many(
                    layout::cell_item(b, n),
                    layout::cell_item(d, n),
                    o3,
                    m as int,
                    len,
                );
            }
        }
    }
}

proof fn lemma_complex(b: Seq<u8>, d: Seq<u8>, off: int)
    requires
        extends(b, d),
        0 <= off <= b.len(),
    ensures
        keeps(layout::p_complex(b, off), layout::p_complex(d, off), off, b.len() as int),
{
    let len: int = b.len() as int;
    lemma_words(b, d);
    if let Ok((n, o1)) = layout::p_u32(b, off, "vertex count") {
        assert(keeps(
            layout::p_u32(b, off, "vertex count"),
            layout::p_u32(d, off, "vertex count"),
            off,
            len,
        ));
        if let Ok((dim, o2)) = layout::p_u32(b, o1, "ambient dimension") {
            assert(keeps(
                layout::p_u32(b, o1, "ambient dimension"),
                layout::p_u32(d, o1, "ambient dimension"),
                o1,
                len,
            ));
            let item = layout::vertex_item(b, dim);
            let again = layout::vertex_item(d, dim);
            assert forall|o: int, prev: Seq<Seq<scalar::Ratio>>| 0 <= o <= len implies keeps(
                #[trigger] item(o, prev),
                again(o, prev),
                o,
                len,
            ) by {
                lemma_rationals(b, d, o, dim as int);
            }
            lemma_many(item, again, o2, n as int, len);
            if let Ok((vertices, o3)) = layout::many(item, o2, n as int) {
                lemma_faces(b, d, o3, n);
            }
        }
    }
}

proof fn lemma_payload(b: Seq<u8>, d: Seq<u8>, off: int, t: types::TypeModel)
    requires
        extends(b, d),
        0 <= off <= b.len(),
    ensures
        keeps(layout::p_payload(b, off, t), layout::p_payload(d, off, t), off, b.len() as int),
{
    lemma_words(b, d);
    lemma_rationals(b, d, off, types::entries(t.shape) as int);
}

proof fn lemma_contract(b: Seq<u8>, d: Seq<u8>, off: int, ts: Seq<types::TypeModel>)
    requires
        extends(b, d),
        0 <= off <= b.len(),
    ensures
        keeps(layout::p_contract(b, off, ts), layout::p_contract(d, off, ts), off, b.len() as int),
{
    let len: int = b.len() as int;
    lemma_words(b, d);
    lemma_lists(b, d);
    assert forall|o: int, n: int| 0 <= o <= len implies keeps(
        #[trigger] layout::p_contract_tail(b, o, n),
        layout::p_contract_tail(d, o, n),
        o,
        len,
    ) by {
        let count: &'static str = "contract extent count";
        let what: &'static str = "contract extent";
        assert(keeps(
            layout::p_words(b, o, count, what),
            layout::p_words(d, o, count, what),
            o,
            len,
        ));
        if let Ok((extents, o1)) = layout::p_words(b, o, count, what) {
            lemma_many(layout::binding_item(b), layout::binding_item(d), o1, n, len);
        }
    }
}

/// The body of an application is read again.
proof fn lemma_body(
    b: Seq<u8>,
    d: Seq<u8>,
    off: int,
    tag: u8,
    header: int,
    ts: Seq<types::TypeModel>,
)
    requires
        extends(b, d),
        0 <= off <= b.len(),
    ensures
        keeps(
            layout::p_body(b, off, tag, header, ts),
            layout::p_body(d, off, tag, header, ts),
            off,
            b.len() as int,
        ),
{
    let len: int = b.len() as int;
    lemma_words(b, d);
    lemma_lists(b, d);
    if tag == 0 {
        let what: &'static str = "const output wire";
        assert(keeps(layout::p_u32(b, off, what), layout::p_u32(d, off, what), off, len));
        if let Ok((out, o)) = layout::p_u32(b, off, what) {
            if out < ts.len() {
                lemma_payload(b, d, o, ts[out as int]);
            }
        }
    } else if tag == 1 {
        lemma_contract(b, d, off, ts);
    }
}

proof fn lemma_app(b: Seq<u8>, d: Seq<u8>, off: int, ts: Seq<types::TypeModel>)
    requires
        extends(b, d),
        0 <= off <= b.len(),
    ensures
        keeps(layout::p_app(b, off, ts), layout::p_app(d, off, ts), off, b.len() as int),
{
    let len: int = b.len() as int;
    lemma_words(b, d);
    assert forall|o: int, tag: u8| 0 <= o <= len implies keeps(
        #[trigger] layout::p_body(b, o, tag, off, ts),
        layout::p_body(d, o, tag, off, ts),
        o,
        len,
    ) by {
        lemma_body(b, d, o, tag, off, ts);
    }
}

/// The graph behind the magic is read again.
proof fn lemma_net(b: Seq<u8>, d: Seq<u8>, off: int)
    requires
        extends(b, d),
        0 <= off <= b.len(),
    ensures
        keeps(layout::p_net(b, off), layout::p_net(d, off), off, b.len() as int),
{
    let len: int = b.len() as int;
    lemma_words(b, d);
    lemma_lists(b, d);
    let (tb, td) = (layout::type_item(b), layout::type_item(d));
    assert forall|o: int, prev: Seq<types::TypeModel>| 0 <= o <= len implies keeps(
        #[trigger] tb(o, prev),
        td(o, prev),
        o,
        len,
    ) by {
        lemma_type(b, d, o);
    }
    let (cb, cd) = (layout::complex_item(b), layout::complex_item(d));
    assert forall|o: int, prev: Seq<simplex::ComplexModel>| 0 <= o <= len implies keeps(
        #[trigger] cb(o, prev),
        cd(o, prev),
        o,
        len,
    ) by {
        lemma_complex(b, d, o);
    }
    if let Ok((n, o)) = layout::p_u32(b, off, "wire-type count") {
        assert(keeps(
            layout::p_u32(b, off, "wire-type count"),
            layout::p_u32(d, off, "wire-type count"),
            off,
            len,
        ));
        lemma_many(tb, td, o, n as int, len);
    }
    if let Ok((ts, o1)) = layout::p_types(b, off) {
        if let Ok((n, o)) = layout::p_u32(b, o1, "complex count") {
            assert(keeps(
                layout::p_u32(b, o1, "complex count"),
                layout::p_u32(d, o1, "complex count"),
                o1,
                len,
            ));
            lemma_many(cb, cd, o, n as int, len);
        }
        if let Ok((cs, o2)) = layout::p_pool(b, o1) {
            let (ab, ad) = (layout::app_item(b, ts), layout::app_item(d, ts));
            assert forall|o: int, prev: Seq<app::AppModel>| 0 <= o <= len implies keeps(
                #[trigger] ab(o, prev),
                ad(o, prev),
                o,
                len,
            ) by {
                lemma_app(b, d, o, ts);
            }
            if let Ok((n, o)) = layout::p_u32(b, o2, "application count") {
                assert(keeps(
                    layout::p_u32(b, o2, "application count"),
                    layout::p_u32(d, o2, "application count"),
                    o2,
                    len,
                ));
                lemma_many(ab, ad, o, n as int, len);
            }
        }
    }
}

/// Bytes behind an accepted encoding are refused as trailing, however many there are.
pub proof fn law_appended_bytes_are_refused(b: Seq<u8>, s: Seq<u8>)
    requires
        layout::parse(b) is Ok,
        s.len() > 0,
    ensures
        layout::parse(b + s) == Err::<graph::NetModel, layout::CanonFault>(
            layout::CanonFault::TrailingBytes { got: s.len() as int },
        ),
{
    let d: Seq<u8> = b + s;
    assert(extends(b, d));
    lemma_take(b, d);
    assert(keeps(
        layout::p_take(b, 0, 8, "magic"),
        layout::p_take(d, 0, 8, "magic"),
        0,
        b.len() as int,
    ));
    lemma_net(b, d, 8);
}

/// `b` is read as a graph. Opaque, so that a proof about it does not read the whole
/// format.
#[verifier::opaque]
spec fn accepted(b: Seq<u8>) -> bool {
    layout::parse(b) is Ok
}

proof fn lemma_longer_is_refused(b: Seq<u8>, s: Seq<u8>)
    requires
        accepted(b),
        s.len() > 0,
    ensures
        !accepted(b + s),
{
    reveal(accepted);
    law_appended_bytes_are_refused(b, s);
}

proof fn lemma_beginning(b: Seq<u8>, n: int)
    requires
        accepted(b),
        0 <= n < b.len(),
    ensures
        !accepted(b.take(n)),
{
    if accepted(b.take(n)) {
        lemma_longer_is_refused(b.take(n), b.skip(n));
        assert(b.take(n) + b.skip(n) =~= b);
    }
}

/// No accepted encoding is a proper prefix of another: the beginnings of one are refused.
pub proof fn law_prefixes_are_refused(b: Seq<u8>, n: int)
    requires
        layout::parse(b) is Ok,
        0 <= n < b.len(),
    ensures
        layout::parse(b.take(n)) is Err,
{
    assert(accepted(b) && accepted(b.take(n)) == (layout::parse(b.take(n)) is Ok)) by {
        reveal(accepted);
    }
    lemma_beginning(b, n);
}

} // verus!
