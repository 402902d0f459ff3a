//! What a well-formed graph is, and that the preflight decides it.

use super::app;
use super::app::Wire;
use super::faults;
use super::graph;
use super::simplex;
use super::types;
use super::types::{Dtype, Kind};
use vstd::prelude::*;

verus! {

/// Every axis has the extent of the index variable it is bound to.
pub open spec fn bound(shape: Seq<u64>, extents: Seq<u64>, bnd: Seq<u32>) -> bool {
    &&& shape.len() == bnd.len()
    &&& forall|ax: int|
        0 <= ax < bnd.len() ==> #[trigger] bnd[ax] < extents.len() && shape[ax]
            == extents[bnd[ax] as int]
}

impl graph::NetModel {
    /// The typing rule of each box.
    pub open spec fn fits(self, a: app::AppModel) -> bool {
        match a {
            app::AppModel::Const { out, value } => {
                &&& value.len() == types::entries(self.typ(out).shape)
                &&& (self.typ(out).dtype.kind == Kind::Rat) == (value is Rat)
            },
            app::AppModel::Contract { inputs, output, extents, in_bindings, out_binding } => {
                &&& inputs.len() == in_bindings.len()
                &&& forall|k: int|
                    0 <= k < inputs.len() ==> self.typ(#[trigger] inputs[k]).dtype == self.typ(
                        output,
                    ).dtype && bound(self.typ(inputs[k]).shape, extents, in_bindings[k])
                &&& bound(self.typ(output).shape, extents, out_binding)
            },
            app::AppModel::Cast { inp, out } => self.typ(inp).shape == self.typ(out).shape,
            app::AppModel::Cell { complex_idx, inp, outs } => {
                let c = self.complexes[complex_idx as int];
                &&& self.typ(inp).shape == seq![c.amb_dim as u64]
                &&& self.typ(inp).dtype.kind == Kind::Rat
                &&& outs.len() == c.cells.len()
                &&& forall|i: int|
                    0 <= i < outs.len() ==> self.typ(#[trigger] outs[i]) == (types::TypeModel {
                        dtype: Dtype::boolean(),
                        shape: Seq::empty(),
                    })
            },
            app::AppModel::Reshape { new_shape, inp, out } => {
                &&& types::entries(self.typ(inp).shape) == types::entries(new_shape)
                &&& self.typ(out) == (types::TypeModel {
                    dtype: self.typ(inp).dtype,
                    shape: new_shape,
                })
            },
            app::AppModel::Broadcast { to_shape, inp, out } => {
                &&& types::broadcasts(self.typ(inp).shape, to_shape)
                &&& self.typ(out).shape == to_shape
            },
            app::AppModel::Copy { inp, outs } => forall|i: int|
                0 <= i < outs.len() ==> self.typ(#[trigger] outs[i]) == self.typ(inp),
            app::AppModel::Delete { .. } => true,
            app::AppModel::Swap { in1, in2, out1, out2 } => self.typ(out1) == self.typ(in2)
                && self.typ(out2) == self.typ(in1),
            app::AppModel::Stack { inputs, output } => {
                &&& inputs.len() > 0
                &&& forall|i: int|
                    0 <= i < inputs.len() ==> self.typ(#[trigger] inputs[i]) == self.typ(inputs[0])
                &&& self.typ(output) == (types::TypeModel {
                    dtype: self.typ(inputs[0]).dtype,
                    shape: seq![inputs.len() as u64] + self.typ(inputs[0]).shape,
                })
            },
        }
    }

    /// The wires and the complex of an application exist, and its types fit.
    pub open spec fn typed(self, a: app::AppModel) -> bool {
        &&& forall|i: int| 0 <= i < a.reads().len() ==> self.knows(#[trigger] a.reads()[i])
        &&& forall|i: int| 0 <= i < a.writes().len() ==> self.knows(#[trigger] a.writes()[i])
        &&& a matches app::AppModel::Cell { complex_idx, .. } ==> complex_idx
            < self.complexes.len()
        &&& self.fits(a)
    }

    /// `w` is a graph input or produced by one of the first `n` applications.
    pub open spec fn available(self, w: Wire, n: int) -> bool {
        ||| self.graph_inputs.contains(w)
        ||| exists|j: int| 0 <= j < n && #[trigger] self.apps[j].writes().contains(w)
    }

    /// No wire is read at two places.
    pub open spec fn reads_once(self) -> bool {
        forall|i: int, k: int, j: int, l: int|
            0 <= i < self.apps.len() && 0 <= k < self.apps[i].reads().len() && 0 <= j
                < self.apps.len() && 0 <= l < self.apps[j].reads().len() && (i != j || k != l)
                ==> #[trigger] self.apps[i].reads()[k] != #[trigger] self.apps[j].reads()[l]
    }

    /// No wire is written at two places.
    pub open spec fn writes_once(self) -> bool {
        forall|i: int, k: int, j: int, l: int|
            0 <= i < self.apps.len() && 0 <= k < self.apps[i].writes().len() && 0 <= j
                < self.apps.len() && 0 <= l < self.apps[j].writes().len() && (i != j || k != l)
                ==> #[trigger] self.apps[i].writes()[k] != #[trigger] self.apps[j].writes()[l]
    }

    /// No graph input is written.
    pub open spec fn inputs_unwritten(self) -> bool {
        forall|i: int, j: int, l: int|
            0 <= i < self.graph_inputs.len() && 0 <= j < self.apps.len() && 0 <= l
                < self.apps[j].writes().len() ==> #[trigger] self.graph_inputs[i]
                != #[trigger] self.apps[j].writes()[l]
    }

    /// Every wire is read only after it is available, and every graph output is available.
    pub open spec fn ordered(self) -> bool {
        &&& forall|i: int, k: int|
            0 <= i < self.apps.len() && 0 <= k < self.apps[i].reads().len() ==> self.available(
                #[trigger] self.apps[i].reads()[k],
                i,
            )
        &&& forall|i: int|
            0 <= i < self.graph_outputs.len() ==> self.available(
                #[trigger] self.graph_outputs[i],
                self.apps.len() as int,
            )
    }

    /// Wires are used linearly and in order, boxes are typed, complexes are sound.
    pub open spec fn well_formed(self) -> bool {
        &&& self.reads_once()
        &&& self.writes_once()
        &&& self.inputs_unwritten()
        &&& self.ordered()
        &&& forall|i: int| 0 <= i < self.apps.len() ==> self.typed(#[trigger] self.apps[i])
        &&& forall|i: int|
            0 <= i < self.complexes.len() ==> (#[trigger] self.complexes[i]).sound()
    }
}

/// Axes have no faults exactly where they are bound.
proof fn lemma_axes(net: graph::NetModel, shape: Seq<u64>, extents: Seq<u64>, bnd: Seq<u32>, k: int)
    requires
        shape.len() == bnd.len(),
    ensures
        simplex::flat(net.input_axis_faults(shape, extents, bnd, k), bnd.len() as int).len() == 0
            <==> bound(shape, extents, bnd),
        simplex::flat(net.output_axis_faults(shape, extents, bnd), bnd.len() as int).len() == 0
            <==> bound(shape, extents, bnd),
{
    let f = net.input_axis_faults(shape, extents, bnd, k);
    let g = net.output_axis_faults(shape, extents, bnd);
    simplex::lemma_flat_empty(f, bnd.len() as int);
    simplex::lemma_flat_empty(g, bnd.len() as int);
    if bound(shape, extents, bnd) {
        assert forall|ax: int| 0 <= ax < bnd.len() implies (#[trigger] f(ax)).len() == 0 by {
            assert(bnd[ax] < extents.len());
        }
        assert forall|ax: int| 0 <= ax < bnd.len() implies (#[trigger] g(ax)).len() == 0 by {
            assert(bnd[ax] < extents.len());
        }
    } else {
        let ax: int = choose|ax: int|
            0 <= ax < bnd.len() && !(#[trigger] bnd[ax] < extents.len() && shape[ax]
                == extents[bnd[ax] as int]);
        assert(f(ax).len() == 1 && g(ax).len() == 1);
    }
}

/// A box has no typing faults exactly where its types fit.
pub proof fn lemma_fits(net: graph::NetModel, a: app::AppModel)
    ensures
        net.type_faults(a).len() == 0 <==> net.fits(a),
{
    match a {
        app::AppModel::Contract { inputs, output, extents, in_bindings, out_binding } => {
            if inputs.len() == in_bindings.len() {
                let f = net.input_faults(inputs, output, extents, in_bindings);
                simplex::lemma_flat_empty(f, inputs.len() as int);
                if net.typ(output).shape.len() == out_binding.len() {
                    lemma_axes(net, net.typ(output).shape, extents, out_binding, 0);
                }
                assert forall|k: int| 0 <= k < inputs.len() implies ((#[trigger] f(k)).len() == 0
                    <==> net.typ(inputs[k]).dtype == net.typ(output).dtype && bound(
                    net.typ(inputs[k]).shape,
                    extents,
                    in_bindings[k],
                )) by {
                    if net.typ(inputs[k]).shape.len() == in_bindings[k].len() {
                        lemma_axes(net, net.typ(inputs[k]).shape, extents, in_bindings[k], k);
                    }
                }
                if net.fits(a) {
                    assert forall|k: int| 0 <= k < inputs.len() implies (#[trigger] f(k)).len()
                        == 0 by {
                        assert(net.typ(inputs[k]).dtype == net.typ(output).dtype);
                    }
                }
                if simplex::flat(f, inputs.len() as int).len() == 0 {
                    assert forall|k: int| 0 <= k < inputs.len() implies net.typ(
                        #[trigger] inputs[k],
                    ).dtype == net.typ(output).dtype && bound(
                        net.typ(inputs[k]).shape,
                        extents,
                        in_bindings[k],
                    ) by {
                        assert(f(k).len() == 0);
                    }
                }
            }
        },
        app::AppModel::Cell { complex_idx, inp, outs } => {
            let f = net.cell_output_faults(outs);
            let scalar = types::TypeModel { dtype: Dtype::boolean(), shape: Seq::empty() };
            simplex::lemma_flat_empty(f, outs.len() as int);
            if net.fits(a) {
                assert forall|i: int| 0 <= i < outs.len() implies (#[trigger] f(i)).len() == 0 by {
                    assert(net.typ(outs[i]) == scalar);
                }
            }
            if simplex::flat(f, outs.len() as int).len() == 0 {
                assert forall|i: int| 0 <= i < outs.len() implies net.typ(#[trigger] outs[i])
                    == scalar by {
                    assert(f(i).len() == 0);
                }
            }
        },
        app::AppModel::Copy { inp, outs } => {
            let f = net.copy_faults(inp, outs);
            simplex::lemma_flat_empty(f, outs.len() as int);
            if net.fits(a) {
                assert forall|i: int| 0 <= i < outs.len() implies (#[trigger] f(i)).len() == 0 by {
                    assert(net.typ(outs[i]) == net.typ(inp));
                }
            }
            if simplex::flat(f, outs.len() as int).len() == 0 {
                assert forall|i: int| 0 <= i < outs.len() implies net.typ(#[trigger] outs[i])
                    == net.typ(inp) by {
                    assert(f(i).len() == 0);
                }
            }
        },
        app::AppModel::Stack { inputs, output } => {
            if inputs.len() > 0 {
                let f = net.stack_faults(inputs);
                let t = net.typ(inputs[0]);
                let u = net.typ(output);
                simplex::lemma_flat_empty(f, inputs.len() as int);
                if net.fits(a) {
                    assert forall|i: int| 0 <= i < inputs.len() implies (#[trigger] f(i)).len()
                        == 0 by {
                        assert(net.typ(inputs[i]) == t);
                    }
                }
                if simplex::flat(f, inputs.len() as int).len() == 0 {
                    assert forall|i: int| 0 <= i < inputs.len() implies net.typ(
                        #[trigger] inputs[i],
                    ) == t by {
                        assert(f(i).len() == 0);
                    }
                }
                let expected = types::TypeModel {
                    dtype: t.dtype,
                    shape: seq![inputs.len() as u64] + t.shape,
                };
                assert(u == expected <==> u.shape == expected.shape && u.dtype == expected.dtype);
            }
        },
        app::AppModel::Reshape { new_shape, inp, out } => {
            let t = net.typ(inp);
            let u = net.typ(out);
            let expected = types::TypeModel { dtype: t.dtype, shape: new_shape };
            assert(u == expected <==> u.shape == expected.shape && u.dtype == expected.dtype);
        },
        _ => {},
    }
}

/// An application has no faults exactly where it is typed.
pub proof fn lemma_typed(net: graph::NetModel, idx: u32, a: app::AppModel)
    ensures
        net.app_faults(idx, a).len() == 0 <==> net.typed(a),
{
    let wires: Seq<Wire> = a.reads() + a.writes();
    let f = net.range_faults(idx, wires);
    simplex::lemma_flat_empty(f, wires.len() as int);
    lemma_fits(net, a);
    if simplex::flat(f, wires.len() as int).len() == 0 {
        assert forall|i: int| 0 <= i < a.reads().len() implies net.knows(
            #[trigger] a.reads()[i],
        ) by {
            assert(f(i).len() == 0);
            assert(wires[i] == a.reads()[i]);
        }
        assert forall|i: int| 0 <= i < a.writes().len() implies net.knows(
            #[trigger] a.writes()[i],
        ) by {
            assert(f(a.reads().len() + i).len() == 0);
            assert(wires[a.reads().len() + i] == a.writes()[i]);
        }
    }
    if net.typed(a) {
        assert forall|i: int| 0 <= i < wires.len() implies (#[trigger] f(i)).len() == 0 by {
            if i < a.reads().len() {
                assert(net.knows(a.reads()[i]));
            } else {
                assert(net.knows(a.writes()[i - a.reads().len()]));
            }
        }
    }
}

/// The wires counted by `noted`.
pub proof fn lemma_noted(m: Map<Wire, u32>, ws: Seq<Wire>, idx: u32, k: int, w: Wire)
    requires
        0 <= k <= ws.len(),
    ensures
        faults::noted(m, ws, idx, k).contains_key(w) <==> m.contains_key(w) || exists|l: int|
            0 <= l < k && #[trigger] ws[l] == w,
    decreases k,
{
    if k > 0 {
        lemma_noted(m, ws, idx, k - 1, w);
        if exists|l: int| 0 <= l < k - 1 && #[trigger] ws[l] == w {
            let l: int = choose|l: int| 0 <= l < k - 1 && #[trigger] ws[l] == w;
            assert(0 <= l < k && ws[l] == w);
        }
        if ws[k - 1] == w {
            assert(0 <= k - 1 < k && ws[k - 1] == w);
        }
    }
}

/// The wires that the first `n` applications read.
pub proof fn lemma_readers(apps: Seq<app::AppModel>, n: int, w: Wire)
    requires
        0 <= n <= apps.len(),
    ensures
        faults::readers(apps, n).contains_key(w) <==> exists|j: int, l: int|
            0 <= j < n && 0 <= l < apps[j].reads().len() && #[trigger] apps[j].reads()[l] == w,
    decreases n,
{
    if n > 0 {
        let ws: Seq<Wire> = apps[n - 1].reads();
        lemma_readers(apps, n - 1, w);
        lemma_noted(faults::readers(apps, n - 1), ws, (n - 1) as u32, ws.len() as int, w);
        if exists|l: int| 0 <= l < ws.len() && #[trigger] ws[l] == w {
            let l: int = choose|l: int| 0 <= l < ws.len() && #[trigger] ws[l] == w;
            assert(apps[n - 1].reads()[l] == w);
        }
        if exists|j: int, l: int|
            0 <= j < n && 0 <= l < apps[j].reads().len() && #[trigger] apps[j].reads()[l] == w {
            let (j, l): (int, int) = choose|j: int, l: int|
                0 <= j < n && 0 <= l < apps[j].reads().len() && #[trigger] apps[j].reads()[l] == w;
            if j == n - 1 {
                assert(ws[l] == w);
            }
        }
    }
}

/// The wires that the first `n` applications write.
pub proof fn lemma_writers(apps: Seq<app::AppModel>, n: int, w: Wire)
    requires
        0 <= n <= apps.len(),
    ensures
        faults::writers(apps, n).contains_key(w) <==> exists|j: int, l: int|
            0 <= j < n && 0 <= l < apps[j].writes().len() && #[trigger] apps[j].writes()[l] == w,
    decreases n,
{
    if n > 0 {
        let ws: Seq<Wire> = apps[n - 1].writes();
        lemma_writers(apps, n - 1, w);
        lemma_noted(faults::writers(apps, n - 1), ws, (n - 1) as u32, ws.len() as int, w);
        if exists|l: int| 0 <= l < ws.len() && #[trigger] ws[l] == w {
            let l: int = choose|l: int| 0 <= l < ws.len() && #[trigger] ws[l] == w;
            assert(apps[n - 1].writes()[l] == w);
        }
        if exists|j: int, l: int|
            0 <= j < n && 0 <= l < apps[j].writes().len() && #[trigger] apps[j].writes()[l] == w {
            let (j, l): (int, int) = choose|j: int, l: int|
                0 <= j < n && 0 <= l < apps[j].writes().len() && #[trigger] apps[j].writes()[l]
                    == w;
            if j == n - 1 {
                assert(ws[l] == w);
            }
        }
    }
}

/// The wires that are seen before application `n`.
pub proof fn lemma_seen(net: graph::NetModel, n: int, w: Wire)
    requires
        0 <= n <= net.apps.len(),
    ensures
        faults::seen(net.graph_inputs, net.apps, n).contains(w) <==> net.available(w, n),
    decreases n,
{
    if n > 0 {
        lemma_seen(net, n - 1, w);
        if net.available(w, n) && !net.graph_inputs.contains(w) {
            let j: int = choose|j: int| 0 <= j < n && #[trigger] net.apps[j].writes().contains(w);
            if j < n - 1 {
                assert(net.available(w, n - 1));
            }
        }
        if net.available(w, n - 1) && !net.graph_inputs.contains(w) {
            let j: int = choose|j: int|
                0 <= j < n - 1 && #[trigger] net.apps[j].writes().contains(w);
            assert(0 <= j < n && net.apps[j].writes().contains(w));
        }
    }
}

/// No wire is read a second time exactly where every wire is read once.
proof fn lemma_reads(net: graph::NetModel)
    ensures
        net.reads_once() <==> (forall|n: int, k: int|
            0 <= n < net.apps.len() && 0 <= k < net.apps[n].reads().len() ==> (
            #[trigger] net.second_reads(n)(k)).len() == 0),
{
    let second = forall|n: int, k: int|
        0 <= n < net.apps.len() && 0 <= k < net.apps[n].reads().len() ==> (
        #[trigger] net.second_reads(n)(k)).len() == 0;
    if net.reads_once() {
        assert forall|n: int, k: int|
            0 <= n < net.apps.len() && 0 <= k < net.apps[n].reads().len() implies (
        #[trigger] net.second_reads(n)(k)).len() == 0 by {
            let ws: Seq<Wire> = net.apps[n].reads();
            lemma_noted(faults::readers(net.apps, n), ws, n as u32, k, ws[k]);
            lemma_readers(net.apps, n, ws[k]);
            assert(net.apps[n].reads()[k] == ws[k]);
            if exists|l: int| 0 <= l < k && #[trigger] ws[l] == ws[k] {
                let l: int = choose|l: int| 0 <= l < k && #[trigger] ws[l] == ws[k];
                assert(net.apps[n].reads()[l] == net.apps[n].reads()[k]);
            }
        }
    }
    if second {
        assert forall|i: int, k: int, j: int, l: int|
            0 <= i < net.apps.len() && 0 <= k < net.apps[i].reads().len() && 0 <= j
                < net.apps.len() && 0 <= l < net.apps[j].reads().len() && (i != j || k
                != l) implies #[trigger] net.apps[i].reads()[k]
            != #[trigger] net.apps[j].reads()[l] by {
            if net.apps[i].reads()[k] == net.apps[j].reads()[l] {
                if i < j || (i == j && k < l) {
                    lemma_second_read(net, i, k, j, l);
                } else {
                    lemma_second_read(net, j, l, i, k);
                }
            }
        }
    }
}

/// A wire that was read before is a second read.
proof fn lemma_second_read(net: graph::NetModel, i: int, k: int, j: int, l: int)
    requires
        0 <= i <= j < net.apps.len(),
        0 <= k < net.apps[i].reads().len(),
        0 <= l < net.apps[j].reads().len(),
        i < j || k < l,
        net.apps[i].reads()[k] == net.apps[j].reads()[l],
    ensures
        net.second_reads(j)(l).len() == 1,
{
    let ws: Seq<Wire> = net.apps[j].reads();
    lemma_noted(faults::readers(net.apps, j), ws, j as u32, l, ws[l]);
    lemma_readers(net.apps, j, ws[l]);
    if i < j {
        assert(net.apps[i].reads()[k] == ws[l]);
    } else {
        assert(0 <= k < l && ws[k] == ws[l]);
    }
}

/// A wire that was written before is a second write.
proof fn lemma_second_write(net: graph::NetModel, i: int, k: int, j: int, l: int)
    requires
        0 <= i <= j < net.apps.len(),
        0 <= k < net.apps[i].writes().len(),
        0 <= l < net.apps[j].writes().len(),
        i < j || k < l,
        net.apps[i].writes()[k] == net.apps[j].writes()[l],
    ensures
        net.second_writes(j)(l).len() == 1,
{
    let ws: Seq<Wire> = net.apps[j].writes();
    lemma_noted(faults::writers(net.apps, j), ws, j as u32, l, ws[l]);
    lemma_writers(net.apps, j, ws[l]);
    if i < j {
        assert(net.apps[i].writes()[k] == ws[l]);
    } else {
        assert(0 <= k < l && ws[k] == ws[l]);
    }
}

/// No wire is written a second time exactly where every wire is written once.
proof fn lemma_writes(net: graph::NetModel)
    ensures
        net.writes_once() <==> (forall|n: int, k: int|
            0 <= n < net.apps.len() && 0 <= k < net.apps[n].writes().len() ==> (
            #[trigger] net.second_writes(n)(k)).len() == 0),
{
    let second = forall|n: int, k: int|
        0 <= n < net.apps.len() && 0 <= k < net.apps[n].writes().len() ==> (
        #[trigger] net.second_writes(n)(k)).len() == 0;
    if net.writes_once() {
        assert forall|n: int, k: int|
            0 <= n < net.apps.len() && 0 <= k < net.apps[n].writes().len() implies (
        #[trigger] net.second_writes(n)(k)).len() == 0 by {
            let ws: Seq<Wire> = net.apps[n].writes();
            lemma_noted(faults::writers(net.apps, n), ws, n as u32, k, ws[k]);
            lemma_writers(net.apps, n, ws[k]);
            assert(net.apps[n].writes()[k] == ws[k]);
            if exists|l: int| 0 <= l < k && #[trigger] ws[l] == ws[k] {
                let l: int = choose|l: int| 0 <= l < k && #[trigger] ws[l] == ws[k];
                assert(net.apps[n].writes()[l] == net.apps[n].writes()[k]);
            }
        }
    }
    if second {
        assert forall|i: int, k: int, j: int, l: int|
            0 <= i < net.apps.len() && 0 <= k < net.apps[i].writes().len() && 0 <= j
                < net.apps.len() && 0 <= l < net.apps[j].writes().len() && (i != j || k
                != l) implies #[trigger] net.apps[i].writes()[k]
            != #[trigger] net.apps[j].writes()[l] by {
            if net.apps[i].writes()[k] == net.apps[j].writes()[l] {
                if i < j || (i == j && k < l) {
                    lemma_second_write(net, i, k, j, l);
                } else {
                    lemma_second_write(net, j, l, i, k);
                }
            }
        }
    }
}

/// The linearity part of the preflight is empty exactly where wires are used once.
proof fn lemma_linearity(net: graph::NetModel)
    ensures
        simplex::flat(net.linearity_faults(), net.apps.len() as int).len() == 0
            <==> net.reads_once() && net.writes_once(),
{
    let f = net.linearity_faults();
    simplex::lemma_flat_empty(f, net.apps.len() as int);
    lemma_reads(net);
    lemma_writes(net);
    assert forall|n: int| 0 <= n < net.apps.len() implies ((#[trigger] f(n)).len() == 0 <==> (
    forall|k: int|
        0 <= k < net.apps[n].reads().len() ==> (#[trigger] net.second_reads(n)(k)).len() == 0) && (
    forall|k: int|
        0 <= k < net.apps[n].writes().len() ==> (#[trigger] net.second_writes(n)(k)).len()
            == 0)) by {
        simplex::lemma_flat_empty(net.second_reads(n), net.apps[n].reads().len() as int);
        simplex::lemma_flat_empty(net.second_writes(n), net.apps[n].writes().len() as int);
    }
    if simplex::flat(f, net.apps.len() as int).len() == 0 {
        assert forall|n: int, k: int|
            0 <= n < net.apps.len() && 0 <= k < net.apps[n].reads().len() implies (
        #[trigger] net.second_reads(n)(k)).len() == 0 by {
            assert(f(n).len() == 0);
        }
        assert forall|n: int, k: int|
            0 <= n < net.apps.len() && 0 <= k < net.apps[n].writes().len() implies (
        #[trigger] net.second_writes(n)(k)).len() == 0 by {
            assert(f(n).len() == 0);
        }
    }
}

/// Graph inputs that are produced are found.
proof fn lemma_inputs(net: graph::NetModel)
    ensures
        simplex::flat(net.input_produced_faults(), net.graph_inputs.len() as int).len() == 0
            <==> net.inputs_unwritten(),
{
    let f = net.input_produced_faults();
    simplex::lemma_flat_empty(f, net.graph_inputs.len() as int);
    if net.inputs_unwritten() {
        assert forall|i: int| 0 <= i < net.graph_inputs.len() implies (#[trigger] f(i)).len()
            == 0 by {
            lemma_writers(net.apps, net.apps.len() as int, net.graph_inputs[i]);
        }
    }
    if simplex::flat(f, net.graph_inputs.len() as int).len() == 0 {
        assert forall|i: int, j: int, l: int|
            0 <= i < net.graph_inputs.len() && 0 <= j < net.apps.len() && 0 <= l
                < net.apps[j].writes().len() implies #[trigger] net.graph_inputs[i]
            != #[trigger] net.apps[j].writes()[l] by {
            assert(f(i).len() == 0);
            lemma_writers(net.apps, net.apps.len() as int, net.graph_inputs[i]);
        }
    }
}

/// Wires that are used out of order are found.
proof fn lemma_order(net: graph::NetModel)
    ensures
        simplex::flat(net.order_faults(), net.apps.len() as int).len() == 0 && simplex::flat(
            net.output_missing_faults(),
            net.graph_outputs.len() as int,
        ).len() == 0 <==> net.ordered(),
{
    let f = net.order_faults();
    let g = net.output_missing_faults();
    let n: int = net.apps.len() as int;
    simplex::lemma_flat_empty(f, n);
    simplex::lemma_flat_empty(g, net.graph_outputs.len() as int);
    assert forall|i: int| 0 <= i < n implies ((#[trigger] f(i)).len() == 0 <==> (forall|k: int|
        0 <= k < net.apps[i].reads().len() ==> (#[trigger] net.early_reads(i)(k)).len() == 0)) by {
        simplex::lemma_flat_empty(net.early_reads(i), net.apps[i].reads().len() as int);
    }
    if net.ordered() {
        assert forall|i: int| 0 <= i < n implies (#[trigger] f(i)).len() == 0 by {
            assert forall|k: int| 0 <= k < net.apps[i].reads().len() implies (
            #[trigger] net.early_reads(i)(k)).len() == 0 by {
                lemma_seen(net, i, net.apps[i].reads()[k]);
            }
        }
        assert forall|i: int| 0 <= i < net.graph_outputs.len() implies (#[trigger] g(i)).len()
            == 0 by {
            lemma_seen(net, n, net.graph_outputs[i]);
        }
    }
    if simplex::flat(f, n).len() == 0 && simplex::flat(g, net.graph_outputs.len() as int).len()
        == 0 {
        assert forall|i: int, k: int|
            0 <= i < n && 0 <= k < net.apps[i].reads().len() implies net.available(
            #[trigger] net.apps[i].reads()[k],
            i,
        ) by {
            assert(f(i).len() == 0);
            assert(net.early_reads(i)(k).len() == 0);
            lemma_seen(net, i, net.apps[i].reads()[k]);
        }
        assert forall|i: int| 0 <= i < net.graph_outputs.len() implies net.available(
            #[trigger] net.graph_outputs[i],
            n,
        ) by {
            assert(g(i).len() == 0);
            lemma_seen(net, n, net.graph_outputs[i]);
        }
    }
}

/// The preflight finds nothing exactly where the graph is well formed.
pub proof fn law_preflight_decides(net: graph::NetModel)
    ensures
        net.faults().len() == 0 <==> net.well_formed(),
{
    let n: int = net.apps.len() as int;
    lemma_linearity(net);
    lemma_inputs(net);
    lemma_order(net);
    let f = net.typing_faults();
    simplex::lemma_flat_empty(f, n);
    assert forall|i: int| 0 <= i < n implies ((#[trigger] f(i)).len() == 0 <==> net.typed(
        net.apps[i],
    )) by {
        lemma_typed(net, i as u32, net.apps[i]);
    }
    if simplex::flat(f, n).len() == 0 {
        assert forall|i: int| 0 <= i < n implies net.typed(#[trigger] net.apps[i]) by {
            assert(f(i).len() == 0);
        }
    }
    let g = net.pool_faults();
    let m: int = net.complexes.len() as int;
    simplex::lemma_flat_empty(g, m);
    assert forall|i: int| 0 <= i < m implies ((#[trigger] g(i)).len() == 0
        <==> net.complexes[i].sound()) by {
        simplex::law_no_violations_iff_sound(net.complexes[i]);
    }
    if simplex::flat(g, m).len() == 0 {
        assert forall|i: int| 0 <= i < m implies (#[trigger] net.complexes[i]).sound() by {
            assert(g(i).len() == 0);
        }
    }
}

} // verus!
