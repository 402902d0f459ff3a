//! What each fault of a graph says: it is reported exactly where what it says is true.

use super::app;
use super::app::Wire;
use super::builder_boxes::{lemma_stretches, lemma_volume, stretches, volume};
use super::faults;
use super::faults::{Fault, TypeFault};
use super::graph;
use super::simplex;
use super::simplicial::{lemma_flat_items, lemma_joined};
use super::types;
use super::types::{Dtype, Ext, Kind, Sign};
use vstd::prelude::*;

verus! {

/// The name of a box.
pub open spec fn box_name(a: app::AppModel) -> Seq<char> {
    match a {
        app::AppModel::Const { .. } => "const"@,
        app::AppModel::Contract { .. } => "contract"@,
        app::AppModel::Cast { .. } => "cast"@,
        app::AppModel::Cell { .. } => "cell"@,
        app::AppModel::Reshape { .. } => "reshape"@,
        app::AppModel::Broadcast { .. } => "broadcast"@,
        app::AppModel::Copy { .. } => "copy"@,
        app::AppModel::Delete { .. } => "delete"@,
        app::AppModel::Swap { .. } => "swap"@,
        app::AppModel::Stack { .. } => "stack"@,
    }
}

/// A box has its name.
pub proof fn law_boxes_have_their_names(a: app::AppModel)
    ensures
        a.name()@ == box_name(a),
{
}

/// Wire `w` stands at place `k` of row `second`, and stands further to the front too: in the
/// same row, and then `first` is that row, or else last in row `first`.
pub open spec fn comes_again(
    rows: Seq<Seq<Wire>>,
    w: Wire,
    first: int,
    second: int,
    k: int,
) -> bool {
    &&& 0 <= second < rows.len()
    &&& 0 <= k < rows[second].len()
    &&& rows[second][k] == w
    &&& if rows[second].take(k).contains(w) {
        first == second
    } else {
        &&& 0 <= first < second
        &&& rows[first].contains(w)
        &&& forall|i: int| first < i < second ==> !(#[trigger] rows[i]).contains(w)
    }
}

/// What the applications read, row by row.
pub open spec fn read_rows(net: graph::NetModel) -> Seq<Seq<Wire>> {
    Seq::new(net.apps.len(), |i: int| net.apps[i].reads())
}

/// What the applications write, row by row.
pub open spec fn write_rows(net: graph::NetModel) -> Seq<Seq<Wire>> {
    Seq::new(net.apps.len(), |i: int| net.apps[i].writes())
}

/// Wire `w` is a graph input or written by one of the first `n` applications.
pub open spec fn produced(net: graph::NetModel, w: Wire, n: int) -> bool {
    ||| net.graph_inputs.contains(w)
    ||| exists|j: int| 0 <= j < n && (#[trigger] net.apps[j]).writes().contains(w)
}

/// Every wire of an application has a type.
pub open spec fn wires_typed(net: graph::NetModel, a: app::AppModel) -> bool {
    &&& forall|w: Wire| #[trigger] a.reads().contains(w) ==> w < net.wire_types.len()
    &&& forall|w: Wire| #[trigger] a.writes().contains(w) ==> w < net.wire_types.len()
}

/// The complex of an application, if it names one, exists.
pub open spec fn complex_exists(net: graph::NetModel, a: app::AppModel) -> bool {
    a matches app::AppModel::Cell { complex_idx, .. } ==> complex_idx < net.complexes.len()
}

/// What a fault says of a graph, apart from typing.
pub open spec fn says(net: graph::NetModel, f: Fault) -> bool {
    match f {
        Fault::WireConsumedTwice { wire, first_app, second_app } => exists|k: int| #[trigger]
            comes_again(read_rows(net), wire, first_app as int, second_app as int, k),
        Fault::WireProducedTwice { wire, first_app, second_app } => exists|k: int| #[trigger]
            comes_again(write_rows(net), wire, first_app as int, second_app as int, k),
        Fault::GraphInputProduced { wire, app } => {
            &&& net.graph_inputs.contains(wire)
            &&& app < net.apps.len()
            &&& net.apps[app as int].writes().contains(wire)
            &&& forall|i: int|
                app < i < net.apps.len() ==> !(#[trigger] net.apps[i]).writes().contains(wire)
        },
        Fault::ReadBeforeProduction { app, box_name: name, wire } => {
            &&& app < net.apps.len()
            &&& net.apps[app as int].reads().contains(wire)
            &&& !produced(net, wire, app as int)
            &&& name == net.apps[app as int].name()
        },
        Fault::GraphOutputNeverProduced { wire } => {
            &&& net.graph_outputs.contains(wire)
            &&& !produced(net, wire, net.apps.len() as int)
        },
        Fault::WireOutOfRange { app, wire, table_len } => {
            &&& app < net.apps.len()
            &&& net.apps[app as int].reads().contains(wire) || net.apps[app as int].writes().contains(
                wire,
            )
            &&& wire >= net.wire_types.len()
            &&& table_len == net.wire_types.len() as u32
        },
        Fault::ComplexIndexOutOfRange { app, complex_idx, pool_len } => {
            &&& app < net.apps.len()
            &&& wires_typed(net, net.apps[app as int])
            &&& net.apps[app as int] is Cell
            &&& net.apps[app as int]->complex_idx == complex_idx
            &&& complex_idx >= net.complexes.len()
            &&& pool_len == net.complexes.len() as u32
        },
        Fault::Typing { app, box_name: name, violation } => {
            &&& app < net.apps.len()
            &&& wires_typed(net, net.apps[app as int])
            &&& complex_exists(net, net.apps[app as int])
            &&& name == net.apps[app as int].name()
            &&& net.type_faults(net.apps[app as int]).contains(violation)
        },
        Fault::Complex { complex_idx, violation } => {
            &&& complex_idx < net.complexes.len()
            &&& net.complexes[complex_idx as int].violations().contains(violation)
        },
    }
}

/// The last application that touched a wire, when the wires of a row are counted in.
proof fn lemma_noted(m: Map<Wire, u32>, ws: Seq<Wire>, idx: u32, k: int, w: Wire)
    requires
        0 <= k <= ws.len(),
    ensures
        faults::noted(m, ws, idx, k).contains_key(w) <==> m.contains_key(w) || ws.take(k).contains(
            w,
        ),
        ws.take(k).contains(w) ==> faults::noted(m, ws, idx, k)[w] == idx,
        !ws.take(k).contains(w) && m.contains_key(w) ==> faults::noted(m, ws, idx, k)[w] == m[w],
    decreases k,
{
    if k > 0 {
        lemma_noted(m, ws, idx, k - 1, w);
        let s: Seq<Wire> = ws.take(k - 1);
        let t: Seq<Wire> = ws.take(k);
        assert(t =~= s.push(ws[k - 1]));
        if s.contains(w) {
            let i: int = choose|i: int| 0 <= i < s.len() && s[i] == w;
            assert(t[i] == w);
        }
        if t.contains(w) && ws[k - 1] != w {
            let i: int = choose|i: int| 0 <= i < t.len() && t[i] == w;
            assert(s[i] == w);
        }
        assert(t[k - 1] == ws[k - 1]);
    } else {
        assert(ws.take(0).len() == 0);
    }
}

/// The last row before row `n` in which a wire stands.
spec fn last_row(m: Map<Wire, u32>, rows: Seq<Seq<Wire>>, n: int, w: Wire) -> bool {
    if m.contains_key(w) {
        &&& m[w] < n
        &&& rows[m[w] as int].contains(w)
        &&& forall|i: int| m[w] < i < n ==> !(#[trigger] rows[i]).contains(w)
    } else {
        forall|i: int| 0 <= i < n ==> !(#[trigger] rows[i]).contains(w)
    }
}

/// Counting one row more.
proof fn lemma_last_row(m: Map<Wire, u32>, rows: Seq<Seq<Wire>>, n: int, w: Wire)
    requires
        0 <= n < rows.len() <= u32::MAX,
        last_row(m, rows, n, w),
    ensures
        last_row(
            faults::noted(m, rows[n], n as u32, rows[n].len() as int),
            rows,
            n + 1,
            w,
        ),
{
    let ws: Seq<Wire> = rows[n];
    lemma_noted(m, ws, n as u32, ws.len() as int, w);
    assert(ws.take(ws.len() as int) =~= ws);
}

/// The last reader of a wire.
proof fn lemma_readers(net: graph::NetModel, n: int, w: Wire)
    requires
        0 <= n <= net.apps.len() <= u32::MAX,
    ensures
        last_row(faults::readers(net.apps, n), read_rows(net), n, w),
    decreases n,
{
    if n > 0 {
        lemma_readers(net, n - 1, w);
        lemma_last_row(faults::readers(net.apps, n - 1), read_rows(net), n - 1, w);
    }
}

/// The last writer of a wire.
proof fn lemma_writers(net: graph::NetModel, n: int, w: Wire)
    requires
        0 <= n <= net.apps.len() <= u32::MAX,
    ensures
        last_row(faults::writers(net.apps, n), write_rows(net), n, w),
    decreases n,
{
    if n > 0 {
        lemma_writers(net, n - 1, w);
        lemma_last_row(faults::writers(net.apps, n - 1), write_rows(net), n - 1, w);
    }
}

/// A fault that stands under a condition.
proof fn lemma_when<T>(cond: bool, x: T, y: T)
    ensures
        faults::when(cond, x).contains(y) <==> cond && x == y,
{
    if cond {
        assert(faults::when(cond, x)[0] == x);
    }
}

/// A place of a row comes again exactly where the map of the rows in front knows its wire.
proof fn lemma_again(m: Map<Wire, u32>, rows: Seq<Seq<Wire>>, n: int, k: int)
    requires
        0 <= n < rows.len() <= u32::MAX,
        0 <= k < rows[n].len(),
        last_row(m, rows, n, rows[n][k]),
    ensures
        ({
            let seen = faults::noted(m, rows[n], n as u32, k);
            let w = rows[n][k];
            &&& forall|first: u32|
                seen.contains_key(w) && seen[w] == first <==> #[trigger] comes_again(
                    rows,
                    w,
                    first as int,
                    n,
                    k,
                )
        }),
{
    let w: Wire = rows[n][k];
    let seen: Map<Wire, u32> = faults::noted(m, rows[n], n as u32, k);
    lemma_noted(m, rows[n], n as u32, k, w);
    assert forall|first: u32|
        seen.contains_key(w) && seen[w] == first <==> #[trigger] comes_again(
            rows,
            w,
            first as int,
            n,
            k,
        ) by {
        if !rows[n].take(k).contains(w) {
            if comes_again(rows, w, first as int, n, k) {
                assert(m.contains_key(w));
                if m[w] < first {
                    assert(!rows[first as int].contains(w));
                } else if first < m[w] {
                    assert(!rows[m[w] as int].contains(w));
                }
            }
        }
    }
}

/// The faults of linear use.
proof fn lemma_linearity(net: graph::NetModel, n: int, f: Fault)
    requires
        0 <= n < net.apps.len() <= u32::MAX,
    ensures
        (net.linearity_faults())(n).contains(f) <==> says(net, f) && match f {
            Fault::WireConsumedTwice { second_app, .. } => second_app == n,
            Fault::WireProducedTwice { second_app, .. } => second_app == n,
            _ => false,
        },
{
    let rs: Seq<Seq<Wire>> = read_rows(net);
    let ws: Seq<Seq<Wire>> = write_rows(net);
    let g = net.second_reads(n);
    let h = net.second_writes(n);
    let gn: int = net.apps[n].reads().len() as int;
    let hn: int = net.apps[n].writes().len() as int;
    let gs: Seq<Fault> = simplex::flat(g, gn);
    let hs: Seq<Fault> = simplex::flat(h, hn);
    lemma_joined(gs, hs, f);
    lemma_flat_items(g, gn, f);
    lemma_flat_items(h, hn, f);
    assert forall|k: int| 0 <= k < gn implies (#[trigger] g(k).contains(f) <==> match f {
        Fault::WireConsumedTwice { wire, first_app, second_app } => second_app == n && comes_again(
            rs,
            wire,
            first_app as int,
            n,
            k,
        ),
        _ => false,
    }) by {
        let w: Wire = rs[n][k];
        let m: Map<Wire, u32> = faults::noted(
            faults::readers(net.apps, n),
            net.apps[n].reads(),
            n as u32,
            k,
        );
        lemma_readers(net, n, w);
        lemma_again(faults::readers(net.apps, n), rs, n, k);
        lemma_when(
            m.contains_key(w),
            Fault::WireConsumedTwice { wire: w, first_app: m[w], second_app: n as u32 },
            f,
        );
        assert(m.contains_key(w) ==> comes_again(rs, w, m[w] as int, n, k));
        if let Fault::WireConsumedTwice { wire, first_app, second_app } = f {
            if comes_again(rs, wire, first_app as int, n, k) {
                assert(wire == w);
            }
        }
    }
    assert forall|k: int| 0 <= k < hn implies (#[trigger] h(k).contains(f) <==> match f {
        Fault::WireProducedTwice { wire, first_app, second_app } => second_app == n && comes_again(
            ws,
            wire,
            first_app as int,
            n,
            k,
        ),
        _ => false,
    }) by {
        let w: Wire = ws[n][k];
        let m: Map<Wire, u32> = faults::noted(
            faults::writers(net.apps, n),
            net.apps[n].writes(),
            n as u32,
            k,
        );
        lemma_writers(net, n, w);
        lemma_again(faults::writers(net.apps, n), ws, n, k);
        lemma_when(
            m.contains_key(w),
            Fault::WireProducedTwice { wire: w, first_app: m[w], second_app: n as u32 },
            f,
        );
        assert(m.contains_key(w) ==> comes_again(ws, w, m[w] as int, n, k));
        if let Fault::WireProducedTwice { wire, first_app, second_app } = f {
            if comes_again(ws, wire, first_app as int, n, k) {
                assert(wire == w);
            }
        }
    }
    match f {
        Fault::WireConsumedTwice { wire, first_app, second_app } => {
            if gs.contains(f) {
                let k: int = choose|k: int| 0 <= k < gn && #[trigger] g(k).contains(f);
                assert(comes_again(rs, wire, first_app as int, second_app as int, k));
            }
            if second_app == n && says(net, f) {
                let k: int = choose|k: int| #[trigger]
                    comes_again(rs, wire, first_app as int, second_app as int, k);
                assert(0 <= k < gn && g(k).contains(f));
            }
            if hs.contains(f) {
                let k: int = choose|k: int| 0 <= k < hn && #[trigger] h(k).contains(f);
            }
        },
        Fault::WireProducedTwice { wire, first_app, second_app } => {
            if hs.contains(f) {
                let k: int = choose|k: int| 0 <= k < hn && #[trigger] h(k).contains(f);
                assert(comes_again(ws, wire, first_app as int, second_app as int, k));
            }
            if second_app == n && says(net, f) {
                let k: int = choose|k: int| #[trigger]
                    comes_again(ws, wire, first_app as int, second_app as int, k);
                assert(0 <= k < hn && h(k).contains(f));
            }
            if gs.contains(f) {
                let k: int = choose|k: int| 0 <= k < gn && #[trigger] g(k).contains(f);
            }
        },
        _ => {
            if gs.contains(f) {
                let k: int = choose|k: int| 0 <= k < gn && #[trigger] g(k).contains(f);
            }
            if hs.contains(f) {
                let k: int = choose|k: int| 0 <= k < hn && #[trigger] h(k).contains(f);
            }
        },
    }
}

/// What is produced before an application.
proof fn lemma_produced(net: graph::NetModel, n: int, w: Wire)
    requires
        0 <= n <= net.apps.len(),
    ensures
        faults::seen(net.graph_inputs, net.apps, n).contains(w) <==> produced(net, w, n),
    decreases n,
{
    if n > 0 {
        lemma_produced(net, n - 1, w);
        if produced(net, w, n) && !net.graph_inputs.contains(w) {
            let j: int = choose|j: int|
                0 <= j < n && (#[trigger] net.apps[j]).writes().contains(w);
            if j < n - 1 {
                assert(produced(net, w, n - 1));
            }
        }
        if produced(net, w, n - 1) && !net.graph_inputs.contains(w) {
            let j: int = choose|j: int|
                0 <= j < n - 1 && (#[trigger] net.apps[j]).writes().contains(w);
            assert(0 <= j < n && net.apps[j].writes().contains(w));
        }
    }
}

/// The faults of order at one application.
proof fn lemma_order(net: graph::NetModel, n: int, f: Fault)
    requires
        0 <= n < net.apps.len() <= u32::MAX,
    ensures
        (net.order_faults())(n).contains(f) <==> says(net, f) && match f {
            Fault::ReadBeforeProduction { app, .. } => app == n,
            _ => false,
        },
{
    let g = net.early_reads(n);
    let rs: Seq<Wire> = net.apps[n].reads();
    let gn: int = rs.len() as int;
    lemma_flat_items(g, gn, f);
    assert forall|k: int| 0 <= k < gn implies (#[trigger] g(k).contains(f) <==> match f {
        Fault::ReadBeforeProduction { app, box_name: name, wire } => app == n && name
            == net.apps[n].name() && wire == rs[k] && !produced(net, wire, n),
        _ => false,
    }) by {
        let w: Wire = rs[k];
        lemma_produced(net, n, w);
        lemma_when(
            !faults::seen(net.graph_inputs, net.apps, n).contains(w),
            Fault::ReadBeforeProduction {
                app: n as u32,
                box_name: net.apps[n].name(),
                wire: w,
            },
            f,
        );
    }
    if simplex::flat(g, gn).contains(f) {
        let k: int = choose|k: int| 0 <= k < gn && #[trigger] g(k).contains(f);
        if let Fault::ReadBeforeProduction { app, box_name: name, wire } = f {
            assert(rs.contains(rs[k]));
        }
    }
    if let Fault::ReadBeforeProduction { app, box_name: name, wire } = f {
        if says(net, f) && app == n {
            let k: int = choose|k: int| 0 <= k < rs.len() && rs[k] == wire;
            assert(0 <= k < gn && g(k).contains(f));
        }
    }
}

/// The faults of the inputs.
proof fn lemma_inputs(net: graph::NetModel, f: Fault)
    requires
        net.apps.len() <= u32::MAX,
    ensures
        simplex::flat(net.input_produced_faults(), net.graph_inputs.len() as int).contains(f)
            <==> says(net, f) && f is GraphInputProduced,
{
    let g = net.input_produced_faults();
    let gn: int = net.graph_inputs.len() as int;
    let n: int = net.apps.len() as int;
    let m: Map<Wire, u32> = faults::writers(net.apps, n);
    let rows: Seq<Seq<Wire>> = write_rows(net);
    lemma_flat_items(g, gn, f);
    if simplex::flat(g, gn).contains(f) {
        let i: int = choose|i: int| 0 <= i < gn && #[trigger] g(i).contains(f);
        let w: Wire = net.graph_inputs[i];
        lemma_writers(net, n, w);
        lemma_when(m.contains_key(w), Fault::GraphInputProduced { wire: w, app: m[w] }, f);
        assert(net.graph_inputs.contains(w));
        assert(rows[m[w] as int].contains(w));
        assert forall|j: int| m[w] < j < net.apps.len() implies !(
        #[trigger] net.apps[j]).writes().contains(w) by {
            assert(!rows[j].contains(w));
        }
    }
    if let Fault::GraphInputProduced { wire, app } = f {
        if says(net, f) {
            let i: int = choose|i: int|
                0 <= i < net.graph_inputs.len() && net.graph_inputs[i] == wire;
            lemma_writers(net, n, wire);
            lemma_when(m.contains_key(wire), Fault::GraphInputProduced { wire, app: m[wire] }, f);
            assert(rows[app as int].contains(wire));
            assert(m.contains_key(wire));
            if m[wire] < app {
                assert(!rows[app as int].contains(wire));
            } else if app < m[wire] {
                assert(rows[m[wire] as int].contains(wire));
                assert(!net.apps[m[wire] as int].writes().contains(wire));
            }
            assert(0 <= i < gn && g(i).contains(f));
        }
    }
}

/// The faults of the outputs.
proof fn lemma_outputs(net: graph::NetModel, f: Fault)
    ensures
        simplex::flat(net.output_missing_faults(), net.graph_outputs.len() as int).contains(f)
            <==> says(net, f) && f is GraphOutputNeverProduced,
{
    let g = net.output_missing_faults();
    let gn: int = net.graph_outputs.len() as int;
    let n: int = net.apps.len() as int;
    lemma_flat_items(g, gn, f);
    if simplex::flat(g, gn).contains(f) {
        let i: int = choose|i: int| 0 <= i < gn && #[trigger] g(i).contains(f);
        let w: Wire = net.graph_outputs[i];
        lemma_produced(net, n, w);
        lemma_when(
            !faults::seen(net.graph_inputs, net.apps, n).contains(w),
            Fault::GraphOutputNeverProduced { wire: w },
            f,
        );
        assert(net.graph_outputs.contains(w));
    }
    if let Fault::GraphOutputNeverProduced { wire } = f {
        if says(net, f) {
            let i: int = choose|i: int|
                0 <= i < net.graph_outputs.len() && net.graph_outputs[i] == wire;
            lemma_produced(net, n, wire);
            lemma_when(
                !faults::seen(net.graph_inputs, net.apps, n).contains(wire),
                Fault::GraphOutputNeverProduced { wire },
                f,
            );
            assert(0 <= i < gn && g(i).contains(f));
        }
    }
}

/// The faults of an application's wires and types.
proof fn lemma_typing(net: graph::NetModel, n: int, f: Fault)
    requires
        0 <= n < net.apps.len() <= u32::MAX,
    ensures
        (net.typing_faults())(n).contains(f) <==> says(net, f) && match f {
            Fault::WireOutOfRange { app, .. } => app == n,
            Fault::ComplexIndexOutOfRange { app, .. } => app == n,
            Fault::Typing { app, .. } => app == n,
            _ => false,
        },
{
    let a: app::AppModel = net.apps[n];
    let idx: u32 = n as u32;
    let wires: Seq<Wire> = a.reads() + a.writes();
    let g = net.range_faults(idx, wires);
    let gn: int = wires.len() as int;
    let outside: Seq<Fault> = simplex::flat(g, gn);
    lemma_flat_items(g, gn, f);
    simplex::lemma_flat_empty(g, gn);
    assert forall|k: int| 0 <= k < gn implies (#[trigger] g(k).contains(f) <==> match f {
        Fault::WireOutOfRange { app, wire, table_len } => app == n && wire == wires[k] && wire
            >= net.wire_types.len() && table_len == net.wire_types.len() as u32,
        _ => false,
    }) by {
        lemma_when(
            !net.knows(wires[k]),
            Fault::WireOutOfRange {
                app: idx,
                wire: wires[k],
                table_len: net.wire_types.len() as u32,
            },
            f,
        );
    }
    assert(outside.len() == 0 <==> wires_typed(net, a)) by {
        if outside.len() == 0 {
            assert forall|w: Wire| #[trigger] a.reads().contains(w) implies w
                < net.wire_types.len() by {
                let k: int = choose|k: int| 0 <= k < a.reads().len() && a.reads()[k] == w;
                assert(wires[k] == w);
                assert(g(k).len() == 0);
            }
            assert forall|w: Wire| #[trigger] a.writes().contains(w) implies w
                < net.wire_types.len() by {
                let k: int = choose|k: int| 0 <= k < a.writes().len() && a.writes()[k] == w;
                assert(wires[a.reads().len() + k] == w);
                assert(g(a.reads().len() + k).len() == 0);
            }
        }
        if wires_typed(net, a) {
            assert forall|k: int| 0 <= k < gn implies (#[trigger] g(k)).len() == 0 by {
                if k < a.reads().len() {
                    assert(a.reads().contains(wires[k]));
                } else {
                    assert(a.writes()[k - a.reads().len()] == wires[k]);
                    assert(a.writes().contains(wires[k]));
                }
            }
        }
    }
    if outside.contains(f) {
        let k: int = choose|k: int| 0 <= k < gn && #[trigger] g(k).contains(f);
        if k < a.reads().len() {
            assert(a.reads()[k] == wires[k]);
        } else {
            assert(a.writes()[k - a.reads().len()] == wires[k]);
        }
    }
    if let Fault::WireOutOfRange { app, wire, table_len } = f {
        if says(net, f) && app == n {
            lemma_joined(a.reads(), a.writes(), wire);
            let k: int = choose|k: int| 0 <= k < wires.len() && wires[k] == wire;
            assert(0 <= k < gn && g(k).contains(f));
            assert(outside.len() > 0);
        }
    }
    if outside.len() == 0 {
        match a {
            app::AppModel::Cell { complex_idx, .. } if complex_idx >= net.complexes.len() => {
                let x: Fault = Fault::ComplexIndexOutOfRange {
                    app: idx,
                    complex_idx,
                    pool_len: net.complexes.len() as u32,
                };
                assert(seq![x][0] == x);
                assert((net.typing_faults())(n) == seq![x]);
            },
            _ => {
                let ts: Seq<TypeFault> = net.type_faults(a);
                let all: Seq<Fault> = graph::NetModel::attributed(idx, a.name(), ts);
                assert((net.typing_faults())(n) == all);
                if all.contains(f) {
                    let i: int = choose|i: int| 0 <= i < all.len() && all[i] == f;
                    assert(ts.contains(ts[i]));
                }
                if let Fault::Typing { app, box_name: name, violation } = f {
                    if says(net, f) && app == n {
                        let i: int = choose|i: int| 0 <= i < ts.len() && ts[i] == violation;
                        assert(all[i] == f);
                    }
                }
            },
        }
    }
}

/// The faults of the pooled complexes.
proof fn lemma_pool(net: graph::NetModel, f: Fault)
    requires
        net.complexes.len() <= u32::MAX,
    ensures
        simplex::flat(net.pool_faults(), net.complexes.len() as int).contains(f) <==> says(net, f)
            && f is Complex,
{
    let g = net.pool_faults();
    let gn: int = net.complexes.len() as int;
    lemma_flat_items(g, gn, f);
    if simplex::flat(g, gn).contains(f) {
        let i: int = choose|i: int| 0 <= i < gn && #[trigger] g(i).contains(f);
        let v: Seq<simplex::SimpCViolation> = net.complexes[i].violations();
        let j: int = choose|j: int| 0 <= j < g(i).len() && #[trigger] g(i)[j] == f;
        assert(v.contains(v[j]));
    }
    if let Fault::Complex { complex_idx, violation } = f {
        if says(net, f) {
            let i: int = complex_idx as int;
            let v: Seq<simplex::SimpCViolation> = net.complexes[i].violations();
            let j: int = choose|j: int| 0 <= j < v.len() && v[j] == violation;
            assert(g(i)[j] == f);
            assert(0 <= i < gn && g(i).contains(f));
        }
    }
}

/// A fault is reported exactly where what it says is true: nothing is reported that is not
/// there, and nothing that is there is passed over.
pub proof fn law_faults_say_what_is_true(net: graph::NetModel, f: Fault)
    requires
        net.apps.len() <= u32::MAX,
        net.complexes.len() <= u32::MAX,
    ensures
        net.faults().contains(f) <==> says(net, f),
{
    let n: int = net.apps.len() as int;
    let l = net.linearity_faults();
    let o = net.order_faults();
    let t = net.typing_faults();
    let s1: Seq<Fault> = simplex::flat(l, n);
    let s2: Seq<Fault> = simplex::flat(
        net.input_produced_faults(),
        net.graph_inputs.len() as int,
    );
    let s3: Seq<Fault> = simplex::flat(o, n);
    let s4: Seq<Fault> = simplex::flat(
        net.output_missing_faults(),
        net.graph_outputs.len() as int,
    );
    let s5: Seq<Fault> = simplex::flat(t, n);
    let s6: Seq<Fault> = simplex::flat(net.pool_faults(), net.complexes.len() as int);
    lemma_joined(s1 + s2 + s3 + s4 + s5, s6, f);
    lemma_joined(s1 + s2 + s3 + s4, s5, f);
    lemma_joined(s1 + s2 + s3, s4, f);
    lemma_joined(s1 + s2, s3, f);
    lemma_joined(s1, s2, f);
    lemma_flat_items(l, n, f);
    lemma_flat_items(o, n, f);
    lemma_flat_items(t, n, f);
    lemma_inputs(net, f);
    lemma_outputs(net, f);
    lemma_pool(net, f);
    if s1.contains(f) {
        let i: int = choose|i: int| 0 <= i < n && #[trigger] l(i).contains(f);
        lemma_linearity(net, i, f);
    }
    if s3.contains(f) {
        let i: int = choose|i: int| 0 <= i < n && #[trigger] o(i).contains(f);
        lemma_order(net, i, f);
    }
    if s5.contains(f) {
        let i: int = choose|i: int| 0 <= i < n && #[trigger] t(i).contains(f);
        lemma_typing(net, i, f);
    }
    if says(net, f) {
        match f {
            Fault::WireConsumedTwice { wire, first_app, second_app } => {
                let k: int = choose|k: int| #[trigger]
                    comes_again(read_rows(net), wire, first_app as int, second_app as int, k);
                lemma_linearity(net, second_app as int, f);
                assert(l(second_app as int).contains(f));
            },
            Fault::WireProducedTwice { wire, first_app, second_app } => {
                let k: int = choose|k: int| #[trigger]
                    comes_again(write_rows(net), wire, first_app as int, second_app as int, k);
                lemma_linearity(net, second_app as int, f);
                assert(l(second_app as int).contains(f));
            },
            Fault::ReadBeforeProduction { app, .. } => {
                lemma_order(net, app as int, f);
                assert(o(app as int).contains(f));
            },
            Fault::WireOutOfRange { app, .. } => {
                lemma_typing(net, app as int, f);
                assert(t(app as int).contains(f));
            },
            Fault::ComplexIndexOutOfRange { app, .. } => {
                lemma_typing(net, app as int, f);
                assert(t(app as int).contains(f));
            },
            Fault::Typing { app, .. } => {
                lemma_typing(net, app as int, f);
                assert(t(app as int).contains(f));
            },
            _ => {},
        }
    }
}

// ---- typing ----

/// An axis does not have the extent of the index variable that it is bound to.
pub open spec fn axis_off(shape: Seq<u64>, extents: Seq<u64>, bnd: Seq<u32>, ax: int) -> bool {
    bnd[ax] < extents.len() ==> shape[ax] != extents[bnd[ax] as int]
}

/// What a typing fault says of an application.
pub open spec fn type_says(net: graph::NetModel, a: app::AppModel, v: TypeFault) -> bool {
    let ts = net.wire_types;
    match a {
        app::AppModel::Const { out, value } => match v {
            TypeFault::ConstPayloadSize { expected, got } => {
                &&& expected == volume(ts[out as int].shape) % 0x1_0000_0000_0000_0000
                &&& got == value.len() as u64
                &&& value.len() != expected
            },
            TypeFault::ConstPayloadKind { kind, rational_payload } => {
                &&& kind == ts[out as int].dtype.kind
                &&& rational_payload == (value is Rat)
                &&& (kind is Rat) != rational_payload
            },
            _ => false,
        },
        app::AppModel::Contract { inputs, output, extents, in_bindings, out_binding } => {
            if inputs.len() != in_bindings.len() {
                v == (TypeFault::ContractArity {
                    inputs: inputs.len() as u32,
                    bindings: in_bindings.len() as u32,
                })
            } else {
                match v {
                    TypeFault::ContractInputDtype { input } => {
                        &&& input < inputs.len()
                        &&& ts[inputs[input as int] as int].dtype != ts[output as int].dtype
                    },
                    TypeFault::ContractInputRank { input, rank, bindings } => {
                        let shape = ts[inputs[input as int] as int].shape;
                        &&& input < inputs.len()
                        &&& shape.len() != in_bindings[input as int].len()
                        &&& rank == shape.len() as u32
                        &&& bindings == in_bindings[input as int].len() as u32
                    },
                    TypeFault::ContractInputExtent { input, axis, extent, index } => {
                        let shape = ts[inputs[input as int] as int].shape;
                        let bnd = in_bindings[input as int];
                        &&& input < inputs.len()
                        &&& shape.len() == bnd.len()
                        &&& axis < bnd.len()
                        &&& axis_off(shape, extents, bnd, axis as int)
                        &&& extent == shape[axis as int]
                        &&& index == bnd[axis as int]
                    },
                    TypeFault::ContractOutputRank { rank, bindings } => {
                        &&& ts[output as int].shape.len() != out_binding.len()
                        &&& rank == ts[output as int].shape.len() as u32
                        &&& bindings == out_binding.len() as u32
                    },
                    TypeFault::ContractOutputExtent { axis, index } => {
                        &&& ts[output as int].shape.len() == out_binding.len()
                        &&& axis < out_binding.len()
                        &&& axis_off(ts[output as int].shape, extents, out_binding, axis as int)
                        &&& index == out_binding[axis as int]
                    },
                    _ => false,
                }
            }
        },
        app::AppModel::Cast { inp, out } => v is CastShape && ts[inp as int].shape
            != ts[out as int].shape,
        app::AppModel::Cell { complex_idx, inp, outs } => {
            let c = net.complexes[complex_idx as int];
            match v {
                TypeFault::CellInputType { amb_dim, got } => {
                    &&& amb_dim == c.amb_dim
                    &&& got == ts[inp as int]
                    &&& !(got.shape.len() == 1 && got.shape[0] == amb_dim && got.dtype.kind is Rat)
                },
                TypeFault::CellArity { outs: n, cells } => {
                    &&& outs.len() != c.cells.len()
                    &&& n == outs.len() as u32
                    &&& cells == c.cells.len() as u32
                },
                TypeFault::CellOutputNotBoolScalar { wire } => {
                    &&& outs.contains(wire)
                    &&& !(ts[wire as int].shape.len() == 0 && ts[wire as int].dtype == (Dtype {
                        kind: Kind::Bool,
                        sign: Sign::NonNeg,
                        ext: Ext::Fin,
                    }))
                },
                _ => false,
            }
        },
        app::AppModel::Reshape { new_shape, inp, out } => match v {
            TypeFault::ReshapeSize { from_size, to_size } => {
                &&& from_size == volume(ts[inp as int].shape) % 0x1_0000_0000_0000_0000
                &&& to_size == volume(ts[out as int].shape) % 0x1_0000_0000_0000_0000
                &&& from_size != to_size || ts[out as int].shape != new_shape
            },
            TypeFault::ReshapeDtype => ts[inp as int].dtype != ts[out as int].dtype,
            _ => false,
        },
        app::AppModel::Broadcast { to_shape, inp, out } => {
            &&& v == (TypeFault::BroadcastShape { from: ts[inp as int].shape, to: to_shape })
            &&& !stretches(ts[inp as int].shape, to_shape) || ts[out as int].shape != to_shape
        },
        app::AppModel::Copy { inp, outs } => match v {
            TypeFault::CopyOutputType { wire } => outs.contains(wire) && ts[wire as int]
                != ts[inp as int],
            _ => false,
        },
        app::AppModel::Delete { .. } => false,
        app::AppModel::Swap { in1, in2, out1, out2 } => v is SwapType && (ts[out1 as int]
            != ts[in2 as int] || ts[out2 as int] != ts[in1 as int]),
        app::AppModel::Stack { inputs, output } => {
            let expected = if inputs.len() == 0 {
                seq![0u64]
            } else {
                seq![inputs.len() as u64] + ts[inputs[0] as int].shape
            };
            match v {
                TypeFault::StackInputType { wire } => inputs.contains(wire) && ts[wire as int]
                    != ts[inputs[0] as int],
                TypeFault::StackOutputShape { got, expected: e } => {
                    &&& got == ts[output as int].shape
                    &&& e == expected
                    &&& inputs.len() == 0 || got != expected
                },
                TypeFault::StackDtype => inputs.len() > 0 && ts[output as int].dtype
                    != ts[inputs[0] as int].dtype,
                _ => false,
            }
        },
    }
}

/// The counts of a contraction have room in their words.
pub open spec fn counts_fit(a: app::AppModel) -> bool {
    a matches app::AppModel::Contract { inputs, in_bindings, out_binding, .. } ==> {
        &&& inputs.len() <= u32::MAX
        &&& forall|i: int|
            0 <= i < in_bindings.len() ==> (#[trigger] in_bindings[i]).len() <= u32::MAX
        &&& out_binding.len() <= u32::MAX
    }
}

/// The faults of one input of a contraction.
proof fn lemma_input(net: graph::NetModel, a: app::AppModel, k: int, v: TypeFault)
    requires
        a is Contract,
        counts_fit(a),
        a->Contract_inputs.len() == a->in_bindings.len(),
        0 <= k < a->Contract_inputs.len(),
    ensures
        (net.input_faults(a->Contract_inputs, a->Contract_output, a->extents, a->in_bindings))(
            k,
        ).contains(v) <==> type_says(net, a, v) && match v {
            TypeFault::ContractInputDtype { input } => input == k,
            TypeFault::ContractInputRank { input, .. } => input == k,
            TypeFault::ContractInputExtent { input, .. } => input == k,
            _ => false,
        },
{
    if let app::AppModel::Contract { inputs, output, extents, in_bindings, out_binding } = a {
        let t: types::TypeModel = net.typ(inputs[k]);
        let bnd: Seq<u32> = in_bindings[k];
        let x: TypeFault = TypeFault::ContractInputDtype { input: k as u32 };
        let y: TypeFault = TypeFault::ContractInputRank {
            input: k as u32,
            rank: t.shape.len() as u32,
            bindings: bnd.len() as u32,
        };
        let p: Seq<TypeFault> = faults::when(t.dtype != net.typ(output).dtype, x);
        let g = net.input_axis_faults(t.shape, extents, bnd, k);
        let q: Seq<TypeFault> = if t.shape.len() != bnd.len() {
            seq![y]
        } else {
            simplex::flat(g, bnd.len() as int)
        };
        lemma_joined(p, q, v);
        lemma_when(t.dtype != net.typ(output).dtype, x, v);
        assert(seq![y][0] == y);
        lemma_flat_items(g, bnd.len() as int, v);
        assert(bnd.len() <= u32::MAX);
        assert forall|ax: int| 0 <= ax < bnd.len() implies (#[trigger] g(ax).contains(v) <==> v == (
        TypeFault::ContractInputExtent {
            input: k as u32,
            axis: ax as u32,
            extent: t.shape[ax],
            index: bnd[ax],
        }) && axis_off(t.shape, extents, bnd, ax)) by {
            lemma_when(
                bnd[ax] >= extents.len() || t.shape[ax] != extents[bnd[ax] as int],
                TypeFault::ContractInputExtent {
                    input: k as u32,
                    axis: ax as u32,
                    extent: t.shape[ax],
                    index: bnd[ax],
                },
                v,
            );
        }
        if t.shape.len() == bnd.len() {
            if q.contains(v) {
                let ax: int = choose|ax: int| 0 <= ax < bnd.len() && #[trigger] g(ax).contains(v);
            }
            if let TypeFault::ContractInputExtent { input, axis, extent, index } = v {
                if type_says(net, a, v) && input == k {
                    assert(g(axis as int).contains(v));
                }
            }
        }
        assert((net.input_faults(inputs, output, extents, in_bindings))(k) == p + q);
    }
}

/// The faults of the output of a contraction.
proof fn lemma_output(net: graph::NetModel, a: app::AppModel, v: TypeFault)
    requires
        a is Contract,
        counts_fit(a),
        a->Contract_inputs.len() == a->in_bindings.len(),
    ensures
        net.output_faults(a->Contract_output, a->extents, a->out_binding).contains(v) <==> type_says(
            net,
            a,
            v,
        ) && (v is ContractOutputRank || v is ContractOutputExtent),
{
    if let app::AppModel::Contract { inputs, output, extents, in_bindings, out_binding } = a {
        let shape: Seq<u64> = net.typ(output).shape;
        let bnd: Seq<u32> = out_binding;
        let y: TypeFault = TypeFault::ContractOutputRank {
            rank: shape.len() as u32,
            bindings: bnd.len() as u32,
        };
        let g = net.output_axis_faults(shape, extents, bnd);
        assert(seq![y][0] == y);
        lemma_flat_items(g, bnd.len() as int, v);
        assert forall|ax: int| 0 <= ax < bnd.len() implies (#[trigger] g(ax).contains(v) <==> v == (
        TypeFault::ContractOutputExtent { axis: ax as u32, index: bnd[ax] }) && axis_off(
            shape,
            extents,
            bnd,
            ax,
        )) by {
            lemma_when(
                bnd[ax] >= extents.len() || shape[ax] != extents[bnd[ax] as int],
                TypeFault::ContractOutputExtent { axis: ax as u32, index: bnd[ax] },
                v,
            );
        }
        if shape.len() == bnd.len() {
            if simplex::flat(g, bnd.len() as int).contains(v) {
                let ax: int = choose|ax: int| 0 <= ax < bnd.len() && #[trigger] g(ax).contains(v);
            }
            if let TypeFault::ContractOutputExtent { axis, index } = v {
                if type_says(net, a, v) {
                    assert(g(axis as int).contains(v));
                }
            }
        }
    }
}

/// The faults of a contraction.
proof fn lemma_contract(net: graph::NetModel, a: app::AppModel, v: TypeFault)
    requires
        a is Contract,
        counts_fit(a),
    ensures
        net.type_faults(a).contains(v) <==> type_says(net, a, v),
{
    if let app::AppModel::Contract { inputs, output, extents, in_bindings, out_binding } = a {
        if inputs.len() != in_bindings.len() {
            let x: TypeFault = TypeFault::ContractArity {
                inputs: inputs.len() as u32,
                bindings: in_bindings.len() as u32,
            };
            assert(seq![x][0] == x);
            assert(net.type_faults(a) == seq![x]);
        } else {
            let g = net.input_faults(inputs, output, extents, in_bindings);
            let n: int = inputs.len() as int;
            let p: Seq<TypeFault> = simplex::flat(g, n);
            let q: Seq<TypeFault> = net.output_faults(output, extents, out_binding);
            lemma_joined(p, q, v);
            lemma_flat_items(g, n, v);
            lemma_output(net, a, v);
            assert(net.type_faults(a) == p + q);
            if p.contains(v) {
                let k: int = choose|k: int| 0 <= k < n && #[trigger] g(k).contains(v);
                lemma_input(net, a, k, v);
            }
            if type_says(net, a, v) {
                match v {
                    TypeFault::ContractInputDtype { input } => {
                        lemma_input(net, a, input as int, v);
                        assert(g(input as int).contains(v));
                    },
                    TypeFault::ContractInputRank { input, .. } => {
                        lemma_input(net, a, input as int, v);
                        assert(g(input as int).contains(v));
                    },
                    TypeFault::ContractInputExtent { input, .. } => {
                        lemma_input(net, a, input as int, v);
                        assert(g(input as int).contains(v));
                    },
                    _ => {},
                }
            }
        }
    }
}

/// The faults of a cell.
proof fn lemma_cell(net: graph::NetModel, a: app::AppModel, v: TypeFault)
    requires
        a is Cell,
    ensures
        net.type_faults(a).contains(v) <==> type_says(net, a, v),
{
    if let app::AppModel::Cell { complex_idx, inp, outs } = a {
        let c: simplex::ComplexModel = net.complexes[complex_idx as int];
        let t: types::TypeModel = net.typ(inp);
        let scalar: types::TypeModel = types::TypeModel {
            dtype: Dtype::boolean(),
            shape: Seq::empty(),
        };
        let x: TypeFault = TypeFault::CellInputType { amb_dim: c.amb_dim, got: t };
        let y: TypeFault = TypeFault::CellArity {
            outs: outs.len() as u32,
            cells: c.cells.len() as u32,
        };
        let bad = t.shape != seq![c.amb_dim as u64] || t.dtype.kind != Kind::Rat;
        let p: Seq<TypeFault> = faults::when(bad, x);
        let q: Seq<TypeFault> = faults::when(outs.len() != c.cells.len(), y);
        let g = net.cell_output_faults(outs);
        let n: int = outs.len() as int;
        let r: Seq<TypeFault> = simplex::flat(g, n);
        lemma_joined(p + q, r, v);
        lemma_joined(p, q, v);
        lemma_when(bad, x, v);
        lemma_when(outs.len() != c.cells.len(), y, v);
        lemma_flat_items(g, n, v);
        assert(net.type_faults(a) == p + q + r);
        assert(seq![c.amb_dim as u64][0] == c.amb_dim);
        if t.shape.len() == 1 && t.shape[0] == c.amb_dim {
            assert(t.shape =~= seq![c.amb_dim as u64]);
        }
        assert forall|i: int| 0 <= i < n implies (#[trigger] g(i).contains(v) <==> v == (
        TypeFault::CellOutputNotBoolScalar { wire: outs[i] }) && net.typ(outs[i]) != scalar) by {
            lemma_when(
                net.typ(outs[i]) != scalar,
                TypeFault::CellOutputNotBoolScalar { wire: outs[i] },
                v,
            );
        }
        if r.contains(v) {
            let i: int = choose|i: int| 0 <= i < n && #[trigger] g(i).contains(v);
            assert(outs.contains(outs[i]));
            if net.typ(outs[i]).shape.len() == 0 {
                assert(net.typ(outs[i]).shape =~= Seq::empty());
            }
        }
        if let TypeFault::CellOutputNotBoolScalar { wire } = v {
            if type_says(net, a, v) {
                let i: int = choose|i: int| 0 <= i < outs.len() && outs[i] == wire;
                assert(g(i).contains(v));
            }
        }
    }
}

/// The faults of a stack.
proof fn lemma_stack(net: graph::NetModel, a: app::AppModel, v: TypeFault)
    requires
        a is Stack,
    ensures
        net.type_faults(a).contains(v) <==> type_says(net, a, v),
{
    if let app::AppModel::Stack { inputs, output } = a {
        let u: types::TypeModel = net.typ(output);
        if inputs.len() == 0 {
            let x: TypeFault = TypeFault::StackOutputShape { got: u.shape, expected: seq![0u64] };
            assert(seq![x][0] == x);
            assert(net.type_faults(a) == seq![x]);
            if inputs.contains(0) {
                assert(false);
            }
        } else {
            let t: types::TypeModel = net.typ(inputs[0]);
            let expected: Seq<u64> = seq![inputs.len() as u64] + t.shape;
            let g = net.stack_faults(inputs);
            let n: int = inputs.len() as int;
            let x: TypeFault = TypeFault::StackOutputShape { got: u.shape, expected };
            let p: Seq<TypeFault> = simplex::flat(g, n);
            let q: Seq<TypeFault> = faults::when(u.shape != expected, x);
            let r: Seq<TypeFault> = faults::when(u.dtype != t.dtype, TypeFault::StackDtype);
            lemma_joined(p + q, r, v);
            lemma_joined(p, q, v);
            lemma_when(u.shape != expected, x, v);
            lemma_when(u.dtype != t.dtype, TypeFault::StackDtype, v);
            lemma_flat_items(g, n, v);
            assert(net.type_faults(a) == p + q + r);
            assert forall|i: int| 0 <= i < n implies (#[trigger] g(i).contains(v) <==> v == (
            TypeFault::StackInputType { wire: inputs[i] }) && i > 0 && net.typ(inputs[i]) != t) by {
                lemma_when(
                    i > 0 && net.typ(inputs[i]) != t,
                    TypeFault::StackInputType { wire: inputs[i] },
                    v,
                );
            }
            if p.contains(v) {
                let i: int = choose|i: int| 0 <= i < n && #[trigger] g(i).contains(v);
                assert(inputs.contains(inputs[i]));
            }
            if let TypeFault::StackInputType { wire } = v {
                if type_says(net, a, v) {
                    let i: int = choose|i: int| 0 <= i < inputs.len() && inputs[i] == wire;
                    assert(g(i).contains(v));
                }
            }
        }
    }
}

/// A typing fault is reported exactly where what it says of the application is true.
pub proof fn law_type_faults_say_what_is_true(net: graph::NetModel, a: app::AppModel, v: TypeFault)
    requires
        counts_fit(a),
    ensures
        net.type_faults(a).contains(v) <==> type_says(net, a, v),
{
    match a {
        app::AppModel::Const { out, value } => {
            let t: types::TypeModel = net.typ(out);
            lemma_volume(t.shape);
            let size: u64 = types::entries(t.shape);
            let x: TypeFault = TypeFault::ConstPayloadSize {
                expected: size,
                got: value.len() as u64,
            };
            let y: TypeFault = TypeFault::ConstPayloadKind {
                kind: t.dtype.kind,
                rational_payload: value is Rat,
            };
            let p: Seq<TypeFault> = faults::when(value.len() != size, x);
            let q: Seq<TypeFault> = faults::when(
                (t.dtype.kind == Kind::Rat) != (value is Rat),
                y,
            );
            lemma_joined(p, q, v);
            lemma_when(value.len() != size, x, v);
            lemma_when((t.dtype.kind == Kind::Rat) != (value is Rat), y, v);
            assert(net.type_faults(a) == p + q);
        },
        app::AppModel::Contract { .. } => {
            lemma_contract(net, a, v);
        },
        app::AppModel::Cast { inp, out } => {
            lemma_when(
                net.typ(inp).shape != net.typ(out).shape,
                TypeFault::CastShape,
                v,
            );
        },
        app::AppModel::Cell { .. } => {
            lemma_cell(net, a, v);
        },
        app::AppModel::Reshape { new_shape, inp, out } => {
            let t: types::TypeModel = net.typ(inp);
            let u: types::TypeModel = net.typ(out);
            lemma_volume(t.shape);
            lemma_volume(u.shape);
            let x: TypeFault = TypeFault::ReshapeSize {
                from_size: types::entries(t.shape),
                to_size: types::entries(u.shape),
            };
            let bad = types::entries(t.shape) != types::entries(u.shape) || u.shape != new_shape;
            let p: Seq<TypeFault> = faults::when(bad, x);
            let q: Seq<TypeFault> = faults::when(t.dtype != u.dtype, TypeFault::ReshapeDtype);
            lemma_joined(p, q, v);
            lemma_when(bad, x, v);
            lemma_when(t.dtype != u.dtype, TypeFault::ReshapeDtype, v);
            assert(net.type_faults(a) == p + q);
        },
        app::AppModel::Broadcast { to_shape, inp, out } => {
            lemma_stretches(net.typ(inp).shape, to_shape);
            lemma_when(
                !types::broadcasts(net.typ(inp).shape, to_shape) || net.typ(out).shape != to_shape,
                TypeFault::BroadcastShape { from: net.typ(inp).shape, to: to_shape },
                v,
            );
        },
        app::AppModel::Copy { inp, outs } => {
            let g = net.copy_faults(inp, outs);
            let n: int = outs.len() as int;
            lemma_flat_items(g, n, v);
            assert forall|i: int| 0 <= i < n implies (#[trigger] g(i).contains(v) <==> v == (
            TypeFault::CopyOutputType { wire: outs[i] }) && net.typ(outs[i]) != net.typ(inp)) by {
                lemma_when(
                    net.typ(outs[i]) != net.typ(inp),
                    TypeFault::CopyOutputType { wire: outs[i] },
                    v,
                );
            }
            if simplex::flat(g, n).contains(v) {
                let i: int = choose|i: int| 0 <= i < n && #[trigger] g(i).contains(v);
                assert(outs.contains(outs[i]));
            }
            if let TypeFault::CopyOutputType { wire } = v {
                if type_says(net, a, v) {
                    let i: int = choose|i: int| 0 <= i < outs.len() && outs[i] == wire;
                    assert(g(i).contains(v));
                }
            }
        },
        app::AppModel::Delete { .. } => {},
        app::AppModel::Swap { in1, in2, out1, out2 } => {
            lemma_when(
                net.typ(out1) != net.typ(in2) || net.typ(out2) != net.typ(in1),
                TypeFault::SwapType,
                v,
            );
        },
        app::AppModel::Stack { .. } => {
            lemma_stack(net, a, v);
        },
    }
}

} // verus!
