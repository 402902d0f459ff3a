//! The sections of a graph's bytes, and the boxes in them: writing puts every field at its
//! place, and reading takes every field from its place.

use super::super::app;
use super::super::app::Wire;
use super::super::graph;
use super::super::simplex;
use super::super::types;
use super::bytes;
use super::bytes::{lemma_split, spans};
use super::faithful;
use super::fields;
use super::fields::{list_stands, type_stands, word};
use super::layout;
use super::places;
use super::places::{app_measured, app_stands, complex_measured, complex_stands};
use vstd::prelude::*;

verus! {

/// Where the type of wire `i` stands: behind the magic, the count and the types in front.
pub open spec fn type_start(net: graph::NetModel, i: int) -> int
    decreases i,
{
    if i <= 0 {
        12
    } else {
        type_start(net, i - 1) + 8 + 8 * net.wire_types[i - 1].shape.len()
    }
}

/// Where the complexes' count stands: behind the types.
pub open spec fn pool_start(net: graph::NetModel) -> int {
    type_start(net, net.wire_types.len() as int)
}

/// Where complex `i` stands: behind the count and the complexes in front.
pub open spec fn complex_start(net: graph::NetModel, i: int) -> int
    decreases i,
{
    if i <= 0 {
        pool_start(net) + 4
    } else {
        complex_start(net, i - 1) + layout::spell_complex(net.complexes[i - 1]).len()
    }
}

/// Where the applications' count stands: behind the complexes.
pub open spec fn apps_start(net: graph::NetModel) -> int {
    complex_start(net, net.complexes.len() as int)
}

/// Where application `i` stands: behind the count and the applications in front.
pub open spec fn app_start(net: graph::NetModel, i: int) -> int
    decreases i,
{
    if i <= 0 {
        apps_start(net) + 4
    } else {
        app_start(net, i - 1) + layout::spell_app(net.wire_types, net.apps[i - 1]).len()
    }
}

/// Where the interface stands: behind the applications.
pub open spec fn interface_start(net: graph::NetModel) -> int {
    app_start(net, net.apps.len() as int)
}

/// The counts of a graph have room in their four bytes.
pub open spec fn measured(net: graph::NetModel) -> bool {
    &&& net.wire_types.len() <= u32::MAX
    &&& net.complexes.len() <= u32::MAX
    &&& net.apps.len() <= u32::MAX
    &&& net.graph_inputs.len() <= u32::MAX
    &&& net.graph_outputs.len() <= u32::MAX
    &&& forall|i: int|
        0 <= i < net.wire_types.len() ==> (#[trigger] net.wire_types[i]).shape.len() <= u32::MAX
    &&& forall|i: int|
        0 <= i < net.complexes.len() ==> complex_measured(#[trigger] net.complexes[i])
    &&& forall|i: int|
        0 <= i < net.apps.len() ==> app_measured(net.wire_types, #[trigger] net.apps[i])
}

/// The bytes of a graph, section by section: the magic, the wire types behind their count,
/// the complexes behind their count, the applications behind their count, the inputs behind
/// their count, the outputs behind their count, and nothing else.
pub open spec fn graph_stands(b: Seq<u8>, net: graph::NetModel) -> bool {
    let i = interface_start(net);
    &&& b[0] == 0x41 && b[1] == 0x58 && b[2] == 0x48 && b[3] == 0x4e
    &&& b[4] == 0x30 && b[5] == 0x30 && b[6] == 0x30 && b[7] == 0x31
    &&& word(b, 8) == net.wire_types.len()
    &&& forall|k: int|
        0 <= k < net.wire_types.len() ==> type_stands(
            b,
            type_start(net, k),
            #[trigger] net.wire_types[k],
        )
    &&& word(b, pool_start(net)) == net.complexes.len()
    &&& forall|k: int|
        0 <= k < net.complexes.len() ==> complex_stands(
            b,
            complex_start(net, k),
            complex_start(net, k + 1),
            #[trigger] net.complexes[k],
        )
    &&& word(b, apps_start(net)) == net.apps.len()
    &&& forall|k: int|
        0 <= k < net.apps.len() ==> app_stands(
            b,
            app_start(net, k),
            app_start(net, k + 1),
            net.wire_types,
            #[trigger] net.apps[k],
        )
    &&& list_stands(b, i, net.graph_inputs)
    &&& list_stands(b, i + 4 + 4 * net.graph_inputs.len(), net.graph_outputs)
    &&& b.len() == i + 8 + 4 * net.graph_inputs.len() + 4 * net.graph_outputs.len()
}

/// The wire types in front of wire `i`, counted in bytes.
proof fn lemma_type_start(net: graph::NetModel, i: int)
    requires
        0 <= i <= net.wire_types.len(),
        forall|i: int|
            0 <= i < net.wire_types.len() ==> (#[trigger] net.wire_types[i]).shape.len()
                <= u32::MAX,
    ensures
        type_start(net, i) == 12 + layout::spell_types(net.wire_types.take(i)).len(),
    decreases i,
{
    let f = |t: types::TypeModel| layout::spell_type(t);
    reveal_with_fuel(layout::spell_all, 2);
    if i > 0 {
        lemma_type_start(net, i - 1);
        let t: types::TypeModel = net.wire_types[i - 1];
        let s: Seq<u8> = layout::spell_type(t);
        assert(net.wire_types.take(i).drop_last() =~= net.wire_types.take(i - 1));
        assert(net.wire_types.take(i).last() == t);
        assert(s.subrange(0, s.len() as int) =~= s);
        assert(spans(s, 0, s.len() as int, s));
        fields::lemma_type(s, 0, s.len() as int, t);
    }
}

/// The complexes in front of complex `i`, counted in bytes.
proof fn lemma_complex_start(net: graph::NetModel, i: int)
    requires
        0 <= i <= net.complexes.len(),
    ensures
        complex_start(net, i) == pool_start(net) + 4 + layout::spell_pool(
            net.complexes.take(i),
        ).len(),
    decreases i,
{
    reveal_with_fuel(layout::spell_all, 2);
    if i > 0 {
        lemma_complex_start(net, i - 1);
        assert(net.complexes.take(i).drop_last() =~= net.complexes.take(i - 1));
        assert(net.complexes.take(i).last() == net.complexes[i - 1]);
    }
}

/// The applications in front of application `i`, counted in bytes.
proof fn lemma_app_start(net: graph::NetModel, i: int)
    requires
        0 <= i <= net.apps.len(),
    ensures
        app_start(net, i) == apps_start(net) + 4 + layout::spell_apps(
            net.wire_types,
            net.apps.take(i),
        ).len(),
    decreases i,
{
    reveal_with_fuel(layout::spell_all, 2);
    if i > 0 {
        lemma_app_start(net, i - 1);
        assert(net.apps.take(i).drop_last() =~= net.apps.take(i - 1));
        assert(net.apps.take(i).last() == net.apps[i - 1]);
    }
}

/// A count and what it counts.
proof fn lemma_counted_part(b: Seq<u8>, o: int, e: int, n: nat, s: Seq<u8>)
    requires
        spans(b, o, e, layout::le32(n as u32) + s),
        n <= u32::MAX,
    ensures
        word(b, o) == n,
        spans(b, o + 4, e, s),
        e == o + 4 + s.len(),
{
    bytes::lemma_le(n, 4);
    lemma_split(b, o, e, layout::le32(n as u32), s);
    fields::lemma_word(b, o, o + 4, n as u32);
    assert(b.subrange(o + 4, e).len() == e - (o + 4));
}

/// Six stretches, one behind the other.
proof fn lemma_cut(
    b: Seq<u8>,
    s0: Seq<u8>,
    s1: Seq<u8>,
    s2: Seq<u8>,
    s3: Seq<u8>,
    s4: Seq<u8>,
    s5: Seq<u8>,
)
    requires
        b == s0 + s1 + s2 + s3 + s4 + s5,
    ensures
        ({
            let o1: int = s0.len() as int;
            let o2: int = o1 + s1.len();
            let o3: int = o2 + s2.len();
            let o4: int = o3 + s3.len();
            let o5: int = o4 + s4.len();
            &&& spans(b, 0, o1, s0)
            &&& spans(b, o1, o2, s1)
            &&& spans(b, o2, o3, s2)
            &&& spans(b, o3, o4, s3)
            &&& spans(b, o4, o5, s4)
            &&& spans(b, o5, b.len() as int, s5)
        }),
{
    let n: int = b.len() as int;
    let o1: int = s0.len() as int;
    let o2: int = o1 + s1.len();
    let o3: int = o2 + s2.len();
    let o4: int = o3 + s3.len();
    let o5: int = o4 + s4.len();
    assert(b.subrange(0, n) =~= b);
    lemma_split(b, 0, n, s0 + s1 + s2 + s3 + s4, s5);
    lemma_split(b, 0, o5, s0 + s1 + s2 + s3, s4);
    lemma_split(b, 0, o4, s0 + s1 + s2, s3);
    lemma_split(b, 0, o3, s0 + s1, s2);
    lemma_split(b, 0, o2, s0, s1);
}

/// Where the sections stand.
proof fn lemma_starts(net: graph::NetModel)
    requires
        measured(net),
    ensures
        pool_start(net) == 12 + layout::spell_types(net.wire_types).len(),
        apps_start(net) == pool_start(net) + 4 + layout::spell_pool(net.complexes).len(),
        interface_start(net) == apps_start(net) + 4 + layout::spell_apps(
            net.wire_types,
            net.apps,
        ).len(),
{
    lemma_type_start(net, net.wire_types.len() as int);
    assert(net.wire_types.take(net.wire_types.len() as int) =~= net.wire_types);
    lemma_complex_start(net, net.complexes.len() as int);
    assert(net.complexes.take(net.complexes.len() as int) =~= net.complexes);
    lemma_app_start(net, net.apps.len() as int);
    assert(net.apps.take(net.apps.len() as int) =~= net.apps);
}

/// The stretches of a graph's bytes.
proof fn lemma_stretches(net: graph::NetModel)
    requires
        measured(net),
    ensures
        ({
            let b = layout::spell(net);
            let i = interface_start(net);
            &&& spans(b, 0, 8, layout::magic())
            &&& word(b, 8) == net.wire_types.len()
            &&& spans(b, 12, pool_start(net), layout::spell_types(net.wire_types))
            &&& word(b, pool_start(net)) == net.complexes.len()
            &&& spans(
                b,
                pool_start(net) + 4,
                apps_start(net),
                layout::spell_pool(net.complexes),
            )
            &&& word(b, apps_start(net)) == net.apps.len()
            &&& spans(
                b,
                apps_start(net) + 4,
                i,
                layout::spell_apps(net.wire_types, net.apps),
            )
            &&& list_stands(b, i, net.graph_inputs)
            &&& list_stands(b, i + 4 + 4 * net.graph_inputs.len(), net.graph_outputs)
            &&& b.len() == i + 8 + 4 * net.graph_inputs.len() + 4 * net.graph_outputs.len()
        }),
{
    let b: Seq<u8> = layout::spell(net);
    let n: int = b.len() as int;
    let s0: Seq<u8> = layout::magic();
    let p1: Seq<u8> = layout::spell_types(net.wire_types);
    let p2: Seq<u8> = layout::spell_pool(net.complexes);
    let p3: Seq<u8> = layout::spell_apps(net.wire_types, net.apps);
    let s1: Seq<u8> = layout::le32(net.wire_types.len() as u32) + p1;
    let s2: Seq<u8> = layout::le32(net.complexes.len() as u32) + p2;
    let s3: Seq<u8> = layout::le32(net.apps.len() as u32) + p3;
    let s4: Seq<u8> = layout::spell_counted(net.graph_inputs);
    let s5: Seq<u8> = layout::spell_counted(net.graph_outputs);
    faithful::lemma_spelling(net);
    lemma_cut(b, s0, s1, s2, s3, s4, s5);
    assert(s0.len() == 8);
    let o1: int = 8int + s1.len();
    let o2: int = o1 + s2.len();
    let o3: int = o2 + s3.len();
    let o4: int = o3 + s4.len();
    lemma_counted_part(b, 8, o1, net.wire_types.len(), p1);
    lemma_counted_part(b, o1, o2, net.complexes.len(), p2);
    lemma_counted_part(b, o2, o3, net.apps.len(), p3);
    lemma_starts(net);
    fields::lemma_list(b, o3, o4, net.graph_inputs);
    fields::lemma_list(b, o4, n, net.graph_outputs);
}

/// Application `k` stands at its place.
proof fn lemma_app_written(net: graph::NetModel, k: int)
    requires
        measured(net),
        0 <= k < net.apps.len(),
    ensures
        app_stands(
            layout::spell(net),
            app_start(net, k),
            app_start(net, k + 1),
            net.wire_types,
            net.apps[k],
        ),
{
    let b: Seq<u8> = layout::spell(net);
    let f = |a: app::AppModel| layout::spell_app(net.wire_types, a);
    lemma_stretches(net);
    lemma_app_start(net, k);
    lemma_app_start(net, k + 1);
    fields::lemma_item(b, apps_start(net) + 4, interface_start(net), f, net.apps, k);
    places::law_app_fields(
        b,
        app_start(net, k),
        app_start(net, k + 1),
        net.wire_types,
        net.apps[k],
    );
}

/// Writing puts every field at its place: the bytes of a graph are the format's own, section
/// by section, box by box, field by field.
pub proof fn law_written_fields(net: graph::NetModel)
    requires
        measured(net),
    ensures
        graph_stands(layout::spell(net), net),
{
    let b: Seq<u8> = layout::spell(net);
    lemma_stretches(net);
    assert(b[0] == b.subrange(0, 8)[0] && b[1] == b.subrange(0, 8)[1] && b[2] == b.subrange(
        0,
        8,
    )[2] && b[3] == b.subrange(0, 8)[3]);
    assert(b[4] == b.subrange(0, 8)[4] && b[5] == b.subrange(0, 8)[5] && b[6] == b.subrange(
        0,
        8,
    )[6] && b[7] == b.subrange(0, 8)[7]);
    assert forall|k: int| 0 <= k < net.wire_types.len() implies type_stands(
        b,
        type_start(net, k),
        #[trigger] net.wire_types[k],
    ) by {
        let f = |t: types::TypeModel| layout::spell_type(t);
        lemma_type_start(net, k);
        fields::lemma_item(b, 12, pool_start(net), f, net.wire_types, k);
        fields::lemma_type(
            b,
            type_start(net, k),
            12int + layout::spell_types(net.wire_types.take(k + 1)).len(),
            net.wire_types[k],
        );
    }
    assert forall|k: int| 0 <= k < net.complexes.len() implies complex_stands(
        b,
        complex_start(net, k),
        complex_start(net, k + 1),
        #[trigger] net.complexes[k],
    ) by {
        let f = |c: simplex::ComplexModel| layout::spell_complex(c);
        lemma_complex_start(net, k);
        lemma_complex_start(net, k + 1);
        fields::lemma_item(b, pool_start(net) + 4, apps_start(net), f, net.complexes, k);
        places::law_complex_fields(
            b,
            complex_start(net, k),
            complex_start(net, k + 1),
            net.complexes[k],
        );
    }
    assert forall|k: int| 0 <= k < net.apps.len() implies app_stands(
        b,
        app_start(net, k),
        app_start(net, k + 1),
        net.wire_types,
        #[trigger] net.apps[k],
    ) by {
        lemma_app_written(net, k);
    }
}

/// The sixteen bytes behind the header of a swap are its four wires, in four bytes each,
/// lowest byte first: the two inputs, then the two outputs.
pub proof fn law_swap_bytes(
    net: graph::NetModel,
    i: int,
    in1: Wire,
    in2: Wire,
    out1: Wire,
    out2: Wire,
)
    requires
        measured(net),
        0 <= i < net.apps.len(),
        net.apps[i] == (app::AppModel::Swap { in1, in2, out1, out2 }),
    ensures
        ({
            let b = layout::spell(net);
            let o = app_start(net, i);
            &&& o + 20 <= b.len()
            &&& b[o] == 8 && b[o + 1] == 4 && b[o + 2] == 0 && b[o + 3] == 0
            &&& in1 == b[o + 4] + 0x100 * b[o + 5] + 0x1_0000 * b[o + 6] + 0x100_0000 * b[o + 7]
            &&& in2 == b[o + 8] + 0x100 * b[o + 9] + 0x1_0000 * b[o + 10] + 0x100_0000 * b[o + 11]
            &&& out1 == b[o + 12] + 0x100 * b[o + 13] + 0x1_0000 * b[o + 14] + 0x100_0000
                * b[o + 15]
            &&& out2 == b[o + 16] + 0x100 * b[o + 17] + 0x1_0000 * b[o + 18] + 0x100_0000
                * b[o + 19]
        }),
{
    lemma_app_written(net, i);
}

/// Four bytes are read as the number that they spell.
proof fn lemma_read_word(b: Seq<u8>, o: int, what: &'static str)
    requires
        0 <= o,
        o + 4 <= b.len(),
    ensures
        layout::p_u32(b, o, what) == Ok::<(u32, int), layout::CanonFault>(
            (word(b, o) as u32, o + 4),
        ),
        0 <= word(b, o) <= u32::MAX,
{
    fields::lemma_number(b, o, 4);
    reveal_with_fuel(fields::number, 5);
}

/// Reading the bytes of a swap gives the swap with the four wires that they spell.
pub proof fn law_swap_is_read(b: Seq<u8>, o: int, ts: Seq<types::TypeModel>)
    requires
        0 <= o,
        o + 20 <= b.len(),
        b[o] == 8,
        b[o + 1] == 4,
        b[o + 2] == 0,
        b[o + 3] == 0,
    ensures
        layout::p_app(b, o, ts) matches Ok((a, e)) && e == o + 20 && (a
            matches app::AppModel::Swap { in1, in2, out1, out2 } && in1 == word(b, o + 4) && in2
            == word(b, o + 8) && out1 == word(b, o + 12) && out2 == word(b, o + 16)),
{
    fields::lemma_number(b, o, 1);
    fields::lemma_number(b, o + 1, 1);
    fields::lemma_number(b, o + 2, 2);
    reveal_with_fuel(fields::number, 3);
    lemma_read_word(b, o + 4, "swap in1");
    lemma_read_word(b, o + 8, "swap in2");
    lemma_read_word(b, o + 12, "swap out1");
    lemma_read_word(b, o + 16, "swap out2");
}

} // verus!
