//! What the builder keeps: a graph that it made is well formed.

use super::app;
use super::app::Wire;
use super::builder;
use super::graph;
use super::simplex;
use super::types;
use super::types::Dtype;
use super::wellformed;
use vstd::prelude::*;

verus! {

/// The number of wires that an identifier can name.
pub open spec fn wire_limit() -> int {
    0x1_0000_0000
}

/// The graph so far is linear, in order and typed; what is read is consumed, and every wire
/// is available.
pub open spec fn clean(b: builder::BuilderModel) -> bool {
    &&& b.net.reads_once()
    &&& b.net.writes_once()
    &&& b.net.inputs_unwritten()
    &&& forall|i: int, k: int|
        0 <= i < b.net.apps.len() && 0 <= k < b.net.apps[i].reads().len() ==> b.net.available(
            #[trigger] b.net.apps[i].reads()[k],
            i,
        )
    &&& forall|i: int, k: int|
        0 <= i < b.net.apps.len() && 0 <= k < b.net.apps[i].reads().len()
            ==> b.consumed.contains_key(#[trigger] b.net.apps[i].reads()[k])
    &&& forall|i: int| 0 <= i < b.net.apps.len() ==> b.net.typed(#[trigger] b.net.apps[i])
    &&& forall|i: int|
        0 <= i < b.net.complexes.len() ==> (#[trigger] b.net.complexes[i]).sound()
    &&& forall|i: int|
        0 <= i < b.net.graph_inputs.len() ==> b.net.knows(#[trigger] b.net.graph_inputs[i])
    &&& forall|w: Wire| #[trigger]
        b.net.knows(w) ==> b.net.available(w, b.net.apps.len() as int)
}

/// A builder whose wires can all be named has a clean graph.
pub open spec fn sound(b: builder::BuilderModel) -> bool {
    b.net.wire_types.len() <= wire_limit() ==> clean(b)
}

/// A call of the builder.
#[verifier::ext_equal]
pub enum Step {
    /// `input`.
    Input(types::TypeModel),
    /// `add_complex`.
    Complex(simplex::ComplexModel),
    /// `constant`.
    Constant(types::TypeModel, app::PayloadModel),
    /// `contract`.
    Contract(Seq<Wire>, Seq<u64>, Seq<Seq<u32>>, Seq<u32>),
    /// `cast`.
    Cast(Wire, Dtype),
    /// `cell`.
    Cell(u32, Wire),
    /// `reshape`.
    Reshape(Wire, Seq<u64>),
    /// `broadcast`.
    Broadcast(Wire, Seq<u64>),
    /// `copy`.
    Copy(Wire, u32),
    /// `delete`.
    Delete(Wire),
    /// `swap`.
    Swap(Wire, Wire),
    /// `stack`.
    Stack(Seq<Wire>),
}

impl Step {
    /// The builder after the call, whether it succeeded or was refused.
    pub open spec fn apply(self, b: builder::BuilderModel) -> builder::BuilderModel {
        match self {
            Step::Input(t) => b.with_input(t),
            Step::Complex(c) => b.with_complex(c).0,
            Step::Constant(t, v) => b.constant(t, v).0,
            Step::Contract(i, e, ib, ob) => b.contract(i, e, ib, ob).0,
            Step::Cast(i, t) => b.cast(i, t).0,
            Step::Cell(c, i) => b.cell(c, i).0,
            Step::Reshape(i, s) => b.reshape(i, s).0,
            Step::Broadcast(i, s) => b.broadcast_to(i, s).0,
            Step::Copy(i, k) => b.copy(i, k).0,
            Step::Delete(i) => b.delete(i).0,
            Step::Swap(i, j) => b.swap(i, j).0,
            Step::Stack(i) => b.stack(i).0,
        }
    }
}

/// The builder after a list of calls.
pub open spec fn run(b: builder::BuilderModel, steps: Seq<Step>) -> builder::BuilderModel
    decreases steps.len(),
{
    if steps.len() == 0 {
        b
    } else {
        steps.last().apply(run(b, steps.drop_last()))
    }
}

/// The new builder.
pub open spec fn start() -> builder::BuilderModel {
    builder::BuilderModel { net: graph::NetModel::empty(), consumed: Map::empty() }
}

/// `m` extends the wire types of `n`, and nothing else that types depend on.
spec fn extends(n: graph::NetModel, m: graph::NetModel) -> bool {
    &&& n.wire_types.len() <= m.wire_types.len()
    &&& forall|i: int| 0 <= i < n.wire_types.len() ==> m.wire_types[i] == #[trigger] n.wire_types[i]
    &&& n.complexes.len() <= m.complexes.len()
    &&& forall|i: int| 0 <= i < n.complexes.len() ==> m.complexes[i] == #[trigger] n.complexes[i]
}

/// An application stays typed when wires and complexes are added.
proof fn lemma_stays_typed(n: graph::NetModel, m: graph::NetModel, a: app::AppModel)
    requires
        extends(n, m),
        n.typed(a),
    ensures
        m.typed(a),
{
    assert forall|i: int| 0 <= i < a.reads().len() implies m.typ(#[trigger] a.reads()[i]) == n.typ(
        a.reads()[i],
    ) && m.knows(a.reads()[i]) by {
        assert(n.knows(a.reads()[i]));
    }
    assert forall|i: int| 0 <= i < a.writes().len() implies m.typ(#[trigger] a.writes()[i])
        == n.typ(a.writes()[i]) && m.knows(a.writes()[i]) by {
        assert(n.knows(a.writes()[i]));
    }
    match a {
        app::AppModel::Const { out, value } => {
            assert(a.writes()[0] == out);
        },
        app::AppModel::Contract { inputs, output, extents, in_bindings, out_binding } => {
            assert(a.writes()[0] == output);
            assert forall|k: int| 0 <= k < inputs.len() implies m.typ(#[trigger] inputs[k]).dtype
                == m.typ(output).dtype && wellformed::bound(
                m.typ(inputs[k]).shape,
                extents,
                in_bindings[k],
            ) by {
                assert(a.reads()[k] == inputs[k]);
            }
        },
        app::AppModel::Cast { inp, out } => {
            assert(a.reads()[0] == inp && a.writes()[0] == out);
        },
        app::AppModel::Cell { complex_idx, inp, outs } => {
            assert(a.reads()[0] == inp);
            assert forall|i: int| 0 <= i < outs.len() implies m.typ(#[trigger] outs[i])
                == (types::TypeModel { dtype: Dtype::boolean(), shape: Seq::empty() }) by {
                assert(a.writes()[i] == outs[i]);
                assert(n.typ(outs[i]) == n.typ(a.writes()[i]));
            }
        },
        app::AppModel::Reshape { new_shape, inp, out } => {
            assert(a.reads()[0] == inp && a.writes()[0] == out);
        },
        app::AppModel::Broadcast { to_shape, inp, out } => {
            assert(a.reads()[0] == inp && a.writes()[0] == out);
        },
        app::AppModel::Copy { inp, outs } => {
            assert(a.reads()[0] == inp);
            assert forall|i: int| 0 <= i < outs.len() implies m.typ(#[trigger] outs[i]) == m.typ(
                inp,
            ) by {
                assert(a.writes()[i] == outs[i]);
            }
        },
        app::AppModel::Delete { inp } => {},
        app::AppModel::Swap { in1, in2, out1, out2 } => {
            assert(a.reads()[0] == in1 && a.reads()[1] == in2);
            assert(a.writes()[0] == out1 && a.writes()[1] == out2);
        },
        app::AppModel::Stack { inputs, output } => {
            assert(a.writes()[0] == output);
            assert forall|i: int| 0 <= i < inputs.len() implies m.typ(#[trigger] inputs[i])
                == m.typ(inputs[0]) by {
                assert(a.reads()[i] == inputs[i]);
                assert(a.reads()[0] == inputs[0]);
            }
            assert(a.reads()[0] == inputs[0]);
        },
    }
}

/// Marking more wires as consumed keeps a graph clean.
proof fn lemma_consumed_more(b: builder::BuilderModel, c: builder::BuilderModel)
    requires
        clean(b),
        c.net == b.net,
        forall|w: Wire| #[trigger] b.consumed.contains_key(w) ==> c.consumed.contains_key(w),
    ensures
        clean(c),
{
}

/// `ts` are added behind the wire types, and `a` behind the applications.
spec fn grown(
    b: builder::BuilderModel,
    c: builder::BuilderModel,
    ts: Seq<types::TypeModel>,
    a: app::AppModel,
) -> bool {
    c.net == (graph::NetModel {
        wire_types: b.net.wire_types + ts,
        apps: b.net.apps.push(a),
        ..b.net
    })
}

/// A typed application that reads wires not consumed before and writes fresh wires keeps a
/// graph clean.
proof fn lemma_emit(
    b: builder::BuilderModel,
    c: builder::BuilderModel,
    ts: Seq<types::TypeModel>,
    a: app::AppModel,
)
    requires
        clean(b),
        grown(b, c, ts, a),
        c.net.wire_types.len() <= wire_limit(),
        ts.len() == a.writes().len(),
        forall|k: int|
            0 <= k < a.writes().len() ==> #[trigger] a.writes()[k] == b.net.wire_types.len() + k,
        forall|k: int, l: int|
            0 <= k < l < a.reads().len() ==> #[trigger] a.reads()[k] != #[trigger] a.reads()[l],
        forall|k: int| 0 <= k < a.reads().len() ==> b.net.knows(#[trigger] a.reads()[k]),
        forall|k: int|
            0 <= k < a.reads().len() ==> !b.consumed.contains_key(#[trigger] a.reads()[k]),
        forall|k: int|
            0 <= k < a.reads().len() ==> c.consumed.contains_key(#[trigger] a.reads()[k]),
        forall|w: Wire| #[trigger] b.consumed.contains_key(w) ==> c.consumed.contains_key(w),
        c.net.typed(a),
    ensures
        clean(c),
{
    let n: int = b.net.apps.len() as int;
    let apps: Seq<app::AppModel> = c.net.apps;
    assert forall|i: int| 0 <= i < n implies apps[i] == #[trigger] b.net.apps[i] by {}
    assert(apps[n] == a);
    assert(extends(b.net, c.net)) by {
        assert forall|i: int| 0 <= i < b.net.wire_types.len() implies c.net.wire_types[i]
            == #[trigger] b.net.wire_types[i] by {}
    }
    assert forall|i: int, k: int, j: int, l: int|
        0 <= i < apps.len() && 0 <= k < apps[i].reads().len() && 0 <= j < apps.len() && 0 <= l
            < apps[j].reads().len() && (i != j || k != l) implies #[trigger] apps[i].reads()[k]
        != #[trigger] apps[j].reads()[l] by {
        if i < n && j < n {
            assert(b.net.apps[i].reads()[k] != b.net.apps[j].reads()[l]);
        } else if i < n {
            assert(b.consumed.contains_key(b.net.apps[i].reads()[k]));
            assert(!b.consumed.contains_key(a.reads()[l]));
        } else if j < n {
            assert(b.consumed.contains_key(b.net.apps[j].reads()[l]));
            assert(!b.consumed.contains_key(a.reads()[k]));
        }
    }
    assert forall|j: int, l: int|
        0 <= j < n && 0 <= l < b.net.apps[j].writes().len() implies #[trigger] b.net.apps[j].writes()[l]
        < b.net.wire_types.len() by {
        assert(b.net.typed(b.net.apps[j]));
        assert(b.net.knows(b.net.apps[j].writes()[l]));
    }
    assert forall|i: int, k: int, j: int, l: int|
        0 <= i < apps.len() && 0 <= k < apps[i].writes().len() && 0 <= j < apps.len() && 0 <= l
            < apps[j].writes().len() && (i != j || k != l) implies #[trigger] apps[i].writes()[k]
        != #[trigger] apps[j].writes()[l] by {
        if i < n && j < n {
            assert(b.net.apps[i].writes()[k] != b.net.apps[j].writes()[l]);
        } else if i < n {
            assert(b.net.apps[i].writes()[k] < b.net.wire_types.len());
            assert(a.writes()[l] == b.net.wire_types.len() + l);
        } else if j < n {
            assert(b.net.apps[j].writes()[l] < b.net.wire_types.len());
            assert(a.writes()[k] == b.net.wire_types.len() + k);
        } else {
            assert(a.writes()[k] == b.net.wire_types.len() + k);
            assert(a.writes()[l] == b.net.wire_types.len() + l);
        }
    }
    assert forall|i: int, j: int, l: int|
        0 <= i < c.net.graph_inputs.len() && 0 <= j < apps.len() && 0 <= l
            < apps[j].writes().len() implies #[trigger] c.net.graph_inputs[i]
        != #[trigger] apps[j].writes()[l] by {
        assert(b.net.knows(b.net.graph_inputs[i]));
        if j < n {
            assert(b.net.graph_inputs[i] != b.net.apps[j].writes()[l]);
        } else {
            assert(a.writes()[l] == b.net.wire_types.len() + l);
        }
    }
    assert forall|w: Wire, m: int| 0 <= m <= n && b.net.available(w, m) implies
        #[trigger] c.net.available(w, m) by {
        if !b.net.graph_inputs.contains(w) {
            let j: int = choose|j: int| 0 <= j < m && #[trigger] b.net.apps[j].writes().contains(w);
            assert(apps[j].writes().contains(w));
        }
    }
    assert forall|i: int, k: int|
        0 <= i < apps.len() && 0 <= k < apps[i].reads().len() implies c.net.available(
        #[trigger] apps[i].reads()[k],
        i,
    ) by {
        if i < n {
            assert(b.net.available(b.net.apps[i].reads()[k], i));
        } else {
            assert(b.net.knows(a.reads()[k]));
            assert(b.net.available(a.reads()[k], n));
        }
    }
    assert forall|i: int, k: int|
        0 <= i < apps.len() && 0 <= k < apps[i].reads().len() implies c.consumed.contains_key(
        #[trigger] apps[i].reads()[k],
    ) by {
        if i < n {
            assert(b.consumed.contains_key(b.net.apps[i].reads()[k]));
        } else {
            assert(c.consumed.contains_key(a.reads()[k]));
        }
    }
    assert forall|i: int| 0 <= i < apps.len() implies c.net.typed(#[trigger] apps[i]) by {
        if i < n {
            assert(b.net.typed(b.net.apps[i]));
            lemma_stays_typed(b.net, c.net, b.net.apps[i]);
        }
    }
    assert forall|i: int| 0 <= i < c.net.graph_inputs.len() implies c.net.knows(
        #[trigger] c.net.graph_inputs[i],
    ) by {
        assert(b.net.knows(b.net.graph_inputs[i]));
    }
    assert forall|w: Wire| #[trigger] c.net.knows(w) implies c.net.available(
        w,
        apps.len() as int,
    ) by {
        if w < b.net.wire_types.len() {
            assert(b.net.knows(w));
            if !b.net.graph_inputs.contains(w) {
                let j: int = choose|j: int|
                    0 <= j < n && #[trigger] b.net.apps[j].writes().contains(w);
                assert(apps[j].writes().contains(w));
            }
        } else {
            let k: int = w - b.net.wire_types.len();
            assert(a.writes()[k] == w);
            assert(apps[n].writes().contains(w));
        }
    }
}

/// What consuming a list of wires does.
proof fn lemma_consume_first(b: builder::BuilderModel, ws: Seq<Wire>, k: int)
    requires
        0 <= k <= ws.len(),
    ensures
        ({
            let (c, fault) = b.consume_first(ws, k);
            &&& c.net == b.net
            &&& forall|w: Wire| #[trigger] b.consumed.contains_key(w) ==> c.consumed.contains_key(w)
            &&& fault is None ==> (forall|i: int|
                0 <= i < k ==> !b.consumed.contains_key(#[trigger] ws[i]))
            &&& fault is None ==> (forall|i: int|
                0 <= i < k ==> c.consumed.contains_key(#[trigger] ws[i]))
            &&& fault is None ==> (forall|i: int, j: int|
                0 <= i < j < k ==> #[trigger] ws[i] != #[trigger] ws[j])
        }),
    decreases k,
{
    if k > 0 {
        lemma_consume_first(b, ws, k - 1);
        let (c, fault) = b.consume_first(ws, k - 1);
        if fault is None && c.consume(ws[k - 1]) is Ok {
            assert(!c.consumed.contains_key(ws[k - 1]));
            assert(!b.consumed.contains_key(ws[k - 1]));
        }
    }
}

/// A box that consumes one wire and produces one.
proof fn lemma_unary(b: builder::BuilderModel, inp: Wire, t: types::TypeModel, a: app::AppModel)
    requires
        sound(b),
        b.net.knows(inp),
        a.reads() == seq![inp],
        a.writes() == seq![b.fresh()],
        b.unary(inp, t, a).1 is Ok && b.unary(inp, t, a).0.net.wire_types.len() <= wire_limit()
            ==> b.unary(inp, t, a).0.net.fits(a),
        !(a is Cell),
    ensures
        sound(b.unary(inp, t, a).0),
{
    let c: builder::BuilderModel = b.unary(inp, t, a).0;
    if b.consume(inp) is Ok && c.net.wire_types.len() <= wire_limit() {
        assert(b.net.wire_types.push(t) =~= b.net.wire_types + seq![t]);
        assert(grown(b, c, seq![t], a));
        lemma_emit(b, c, seq![t], a);
    }
}

/// The dtype and binding checks of the inputs of a contraction.
proof fn lemma_inputs_fit(
    b: builder::BuilderModel,
    dtype: Dtype,
    inputs: Seq<Wire>,
    extents: Seq<u64>,
    in_bindings: Seq<Seq<u32>>,
    n: int,
)
    requires
        0 <= n <= inputs.len(),
        inputs.len() == in_bindings.len(),
        b.inputs_fault(dtype, inputs, extents, in_bindings, n) is None,
    ensures
        forall|k: int|
            0 <= k < n ==> b.net.knows(#[trigger] inputs[k]) && b.net.typ(inputs[k]).dtype == dtype
                && wellformed::bound(b.net.typ(inputs[k]).shape, extents, in_bindings[k]),
    decreases n,
{
    if n > 0 {
        lemma_inputs_fit(b, dtype, inputs, extents, in_bindings, n - 1);
        let w: Wire = inputs[n - 1];
        let bnd: Seq<u32> = in_bindings[n - 1];
        assert(b.input_fault(dtype, w, extents, bnd, n - 1) is None);
        lemma_axes_fit(b.net.typ(w).shape, extents, bnd, n - 1, bnd.len() as int);
    }
}

/// The axis checks of an input of a contraction.
proof fn lemma_axes_fit(shape: Seq<u64>, extents: Seq<u64>, bnd: Seq<u32>, k: int, n: int)
    requires
        0 <= n <= bnd.len(),
        builder::BuilderModel::axis_fault(shape, extents, bnd, k, n) is None,
    ensures
        forall|ax: int|
            0 <= ax < n ==> #[trigger] bnd[ax] < extents.len() && shape[ax]
                == extents[bnd[ax] as int],
    decreases n,
{
    if n > 0 {
        lemma_axes_fit(shape, extents, bnd, k, n - 1);
    }
}

/// The axis checks of the output of a contraction.
proof fn lemma_output_fits(extents: Seq<u64>, bnd: Seq<u32>, n: int)
    requires
        0 <= n <= bnd.len(),
        builder::BuilderModel::output_fault(extents, bnd, n) is None,
    ensures
        forall|ax: int| 0 <= ax < n ==> #[trigger] bnd[ax] < extents.len(),
    decreases n,
{
    if n > 0 {
        lemma_output_fits(extents, bnd, n - 1);
    }
}

/// The type checks of the inputs of a stack.
proof fn lemma_stack_fits(b: builder::BuilderModel, t: types::TypeModel, inputs: Seq<Wire>, n: int)
    requires
        1 <= n <= inputs.len(),
        b.peek(inputs[0]) == Ok::<types::TypeModel, builder::BuildFault>(t),
        b.stack_fault(t, inputs, n) is None,
    ensures
        forall|i: int|
            0 <= i < n ==> b.net.knows(#[trigger] inputs[i]) && b.net.typ(inputs[i]) == t,
    decreases n,
{
    if n > 1 {
        lemma_stack_fits(b, t, inputs, n - 1);
    }
}

/// A contraction keeps the builder sound.
proof fn lemma_contract(
    b: builder::BuilderModel,
    inputs: Seq<Wire>,
    extents: Seq<u64>,
    in_bindings: Seq<Seq<u32>>,
    out_binding: Seq<u32>,
)
    requires
        sound(b),
    ensures
        sound(b.contract(inputs, extents, in_bindings, out_binding).0),
{
    let c: builder::BuilderModel = b.contract(inputs, extents, in_bindings, out_binding).0;
    let n: int = inputs.len() as int;
    if c.net.wire_types.len() <= wire_limit() && c != b {
        let t: types::TypeModel = b.net.typ(inputs[0]);
        lemma_consume_first(b, inputs, n);
        let (m, fault) = b.consume_first(inputs, n);
        if fault is Some {
            lemma_consumed_more(b, c);
        } else {
            let shape: Seq<u64> = builder::BuilderModel::bound_shape(extents, out_binding);
            let u: types::TypeModel = types::TypeModel { dtype: t.dtype, shape };
            let output: Wire = m.fresh();
            let a: app::AppModel = app::AppModel::Contract {
                inputs,
                output,
                extents,
                in_bindings,
                out_binding,
            };
            assert(m.net.wire_types.push(u) =~= b.net.wire_types + seq![u]);
            assert(grown(b, c, seq![u], a));
            lemma_inputs_fit(b, t.dtype, inputs, extents, in_bindings, n);
            lemma_output_fits(extents, out_binding, out_binding.len() as int);
            assert(output == b.net.wire_types.len());
            assert(c.net.typ(output) == u);
            assert(c.net.typed(a)) by {
                assert forall|i: int| 0 <= i < a.reads().len() implies c.net.knows(
                    #[trigger] a.reads()[i],
                ) by {
                    assert(b.net.knows(inputs[i]));
                }
                assert(a.writes() == seq![output]);
                assert forall|k: int| 0 <= k < n implies c.net.typ(#[trigger] inputs[k]).dtype
                    == c.net.typ(output).dtype && wellformed::bound(
                    c.net.typ(inputs[k]).shape,
                    extents,
                    in_bindings[k],
                ) by {
                    assert(b.net.knows(inputs[k]));
                    assert(c.net.typ(inputs[k]) == b.net.typ(inputs[k]));
                }
            }
            lemma_emit(b, c, seq![u], a);
        }
    }
}

/// A stack keeps the builder sound.
proof fn lemma_stack(b: builder::BuilderModel, inputs: Seq<Wire>)
    requires
        sound(b),
    ensures
        sound(b.stack(inputs).0),
{
    let c: builder::BuilderModel = b.stack(inputs).0;
    let n: int = inputs.len() as int;
    if c.net.wire_types.len() <= wire_limit() && c != b {
        let t: types::TypeModel = b.net.typ(inputs[0]);
        lemma_consume_first(b, inputs, n);
        let (m, fault) = b.consume_first(inputs, n);
        if fault is Some {
            lemma_consumed_more(b, c);
        } else {
            let u: types::TypeModel = types::TypeModel {
                dtype: t.dtype,
                shape: seq![inputs.len() as u64] + t.shape,
            };
            let output: Wire = m.fresh();
            let a: app::AppModel = app::AppModel::Stack { inputs, output };
            assert(m.net.wire_types.push(u) =~= b.net.wire_types + seq![u]);
            assert(grown(b, c, seq![u], a));
            lemma_stack_fits(b, t, inputs, n);
            assert(output == b.net.wire_types.len());
            assert(c.net.typ(output) == u);
            assert(c.net.typed(a)) by {
                assert(a.writes() == seq![output]);
                assert forall|i: int| 0 <= i < n implies c.net.typ(#[trigger] inputs[i]) == t
                    && c.net.knows(inputs[i]) by {
                    assert(b.net.knows(inputs[i]));
                    assert(c.net.typ(inputs[i]) == b.net.typ(inputs[i]));
                }
                assert(c.net.typ(inputs[0]) == t);
            }
            lemma_emit(b, c, seq![u], a);
        }
    }
}

/// A swap keeps the builder sound.
proof fn lemma_swap(b: builder::BuilderModel, in1: Wire, in2: Wire)
    requires
        sound(b),
    ensures
        sound(b.swap(in1, in2).0),
{
    let c: builder::BuilderModel = b.swap(in1, in2).0;
    if c.net.wire_types.len() <= wire_limit() && c != b {
        let t1: types::TypeModel = b.net.typ(in1);
        let t2: types::TypeModel = b.net.typ(in2);
        if b.swap(in1, in2).1 is Err {
            lemma_consumed_more(b, c);
        } else {
            let out1: Wire = b.fresh();
            let out2: Wire = b.add_wire(t2).fresh();
            let a: app::AppModel = app::AppModel::Swap { in1, in2, out1, out2 };
            let ts: Seq<types::TypeModel> = seq![t2, t1];
            assert(c.net.wire_types =~= b.net.wire_types + ts);
            assert(grown(b, c, ts, a));
            assert(c.net.typ(in1) == t1 && c.net.typ(in2) == t2);
            assert(c.net.typ(out1) == t2 && c.net.typ(out2) == t1);
            assert(c.net.typed(a)) by {
                assert(a.reads() == seq![in1, in2]);
                assert(a.writes() == seq![out1, out2]);
            }
            lemma_emit(b, c, ts, a);
        }
    }
}

/// A box that consumes one wire and produces `n` of type `t`.
proof fn lemma_fan(
    b: builder::BuilderModel,
    m: builder::BuilderModel,
    inp: Wire,
    t: types::TypeModel,
    n: nat,
    a: app::AppModel,
)
    requires
        sound(b),
        b.net.knows(inp),
        b.consume(inp) == Ok::<builder::BuilderModel, builder::BuildFault>(m),
        a.reads() == seq![inp],
        a.writes() == m.fresh_many(n),
        a matches app::AppModel::Cell { complex_idx, .. } ==> complex_idx < b.net.complexes.len(),
        m.add_wires(t, n).emit(a).net.wire_types.len() <= wire_limit()
            ==> m.add_wires(t, n).emit(a).net.fits(a),
    ensures
        sound(m.add_wires(t, n).emit(a)),
{
    let c: builder::BuilderModel = m.add_wires(t, n).emit(a);
    if c.net.wire_types.len() <= wire_limit() {
        let ts: Seq<types::TypeModel> = Seq::new(n, |i: int| t);
        assert(grown(b, c, ts, a));
        assert forall|k: int| 0 <= k < a.writes().len() implies #[trigger] a.writes()[k]
            == b.net.wire_types.len() + k by {
            assert(a.writes()[k] == m.fresh_many(n)[k]);
        }
        lemma_emit(b, c, ts, a);
    }
}

/// A graph input keeps the builder sound.
proof fn lemma_input(b: builder::BuilderModel, t: types::TypeModel)
    requires
        sound(b),
    ensures
        sound(b.with_input(t)),
{
    let c: builder::BuilderModel = b.with_input(t);
    if c.net.wire_types.len() <= wire_limit() {
        let fresh: Wire = b.fresh();
        assert(extends(b.net, c.net));
        assert(fresh == b.net.wire_types.len());
        let apps: Seq<app::AppModel> = b.net.apps;
        assert forall|w: Wire, m: int| b.net.available(w, m) implies #[trigger] c.net.available(
            w,
            m,
        ) by {
            if b.net.graph_inputs.contains(w) {
                let i: int = choose|i: int|
                    0 <= i < b.net.graph_inputs.len() && b.net.graph_inputs[i] == w;
                assert(c.net.graph_inputs[i] == w);
            } else {
                let j: int = choose|j: int| 0 <= j < m && #[trigger] b.net.apps[j].writes().contains(w);
                assert(c.net.apps[j].writes().contains(w));
            }
        }
        assert forall|i: int, j: int, l: int|
            0 <= i < c.net.graph_inputs.len() && 0 <= j < apps.len() && 0 <= l
                < apps[j].writes().len() implies #[trigger] c.net.graph_inputs[i]
            != #[trigger] apps[j].writes()[l] by {
            assert(b.net.typed(b.net.apps[j]));
            assert(b.net.knows(b.net.apps[j].writes()[l]));
            if i < b.net.graph_inputs.len() {
                assert(b.net.graph_inputs[i] != b.net.apps[j].writes()[l]);
            }
        }
        assert forall|i: int| 0 <= i < apps.len() implies c.net.typed(#[trigger] apps[i]) by {
            lemma_stays_typed(b.net, c.net, b.net.apps[i]);
        }
        assert forall|i: int, k: int|
            0 <= i < c.net.apps.len() && 0 <= k < c.net.apps[i].reads().len()
                implies c.net.available(#[trigger] c.net.apps[i].reads()[k], i) by {
            assert(b.net.available(b.net.apps[i].reads()[k], i));
        }
        assert forall|i: int| 0 <= i < c.net.graph_inputs.len() implies c.net.knows(
            #[trigger] c.net.graph_inputs[i],
        ) by {
            if i < b.net.graph_inputs.len() {
                assert(b.net.knows(b.net.graph_inputs[i]));
            }
        }
        assert forall|w: Wire| #[trigger] c.net.knows(w) implies c.net.available(
            w,
            c.net.apps.len() as int,
        ) by {
            if w < b.net.wire_types.len() {
                assert(b.net.knows(w));
                assert(b.net.available(w, b.net.apps.len() as int));
            } else {
                assert(c.net.graph_inputs[b.net.graph_inputs.len() as int] == w);
                assert(c.net.graph_inputs.contains(w));
            }
        }
        assert(c.net.reads_once()) by {
            assert forall|i: int, k: int, j: int, l: int|
                0 <= i < c.net.apps.len() && 0 <= k < c.net.apps[i].reads().len() && 0 <= j
                    < c.net.apps.len() && 0 <= l < c.net.apps[j].reads().len() && (i != j || k
                    != l) implies #[trigger] c.net.apps[i].reads()[k]
                != #[trigger] c.net.apps[j].reads()[l] by {
                assert(b.net.apps[i].reads()[k] != b.net.apps[j].reads()[l]);
            }
        }
        assert(c.net.writes_once()) by {
            assert forall|i: int, k: int, j: int, l: int|
                0 <= i < c.net.apps.len() && 0 <= k < c.net.apps[i].writes().len() && 0 <= j
                    < c.net.apps.len() && 0 <= l < c.net.apps[j].writes().len() && (i != j || k
                    != l) implies #[trigger] c.net.apps[i].writes()[k]
                != #[trigger] c.net.apps[j].writes()[l] by {
                assert(b.net.apps[i].writes()[k] != b.net.apps[j].writes()[l]);
            }
        }
    }
}

/// A complex keeps the builder sound.
proof fn lemma_complex(b: builder::BuilderModel, x: simplex::ComplexModel)
    requires
        sound(b),
    ensures
        sound(b.with_complex(x).0),
{
    let c: builder::BuilderModel = b.with_complex(x).0;
    simplex::law_no_violations_iff_sound(x);
    if c.net.wire_types.len() <= wire_limit() && x.violations().len() == 0 {
        assert(extends(b.net, c.net));
        let apps: Seq<app::AppModel> = b.net.apps;
        assert forall|i: int| 0 <= i < apps.len() implies c.net.typed(#[trigger] apps[i]) by {
            lemma_stays_typed(b.net, c.net, b.net.apps[i]);
        }
        assert forall|w: Wire, m: int| b.net.available(w, m) implies #[trigger] c.net.available(
            w,
            m,
        ) by {
            if !b.net.graph_inputs.contains(w) {
                let j: int = choose|j: int| 0 <= j < m && #[trigger] b.net.apps[j].writes().contains(w);
                assert(c.net.apps[j].writes().contains(w));
            }
        }
        assert forall|i: int, k: int|
            0 <= i < c.net.apps.len() && 0 <= k < c.net.apps[i].reads().len()
                implies c.net.available(#[trigger] c.net.apps[i].reads()[k], i) by {
            assert(b.net.available(b.net.apps[i].reads()[k], i));
        }
        assert forall|i: int| 0 <= i < c.net.complexes.len() implies (
        #[trigger] c.net.complexes[i]).sound() by {
            if i < b.net.complexes.len() {
                assert(b.net.complexes[i].sound());
            }
        }
        assert forall|i: int| 0 <= i < c.net.graph_inputs.len() implies c.net.knows(
            #[trigger] c.net.graph_inputs[i],
        ) by {
            assert(b.net.knows(b.net.graph_inputs[i]));
        }
        assert forall|w: Wire| #[trigger] c.net.knows(w) implies c.net.available(
            w,
            c.net.apps.len() as int,
        ) by {
            assert(b.net.knows(w));
            assert(b.net.available(w, b.net.apps.len() as int));
        }
        assert(c.net.reads_once()) by {
            assert forall|i: int, k: int, j: int, l: int|
                0 <= i < c.net.apps.len() && 0 <= k < c.net.apps[i].reads().len() && 0 <= j
                    < c.net.apps.len() && 0 <= l < c.net.apps[j].reads().len() && (i != j || k
                    != l) implies #[trigger] c.net.apps[i].reads()[k]
                != #[trigger] c.net.apps[j].reads()[l] by {
                assert(b.net.apps[i].reads()[k] != b.net.apps[j].reads()[l]);
            }
        }
        assert(c.net.writes_once()) by {
            assert forall|i: int, k: int, j: int, l: int|
                0 <= i < c.net.apps.len() && 0 <= k < c.net.apps[i].writes().len() && 0 <= j
                    < c.net.apps.len() && 0 <= l < c.net.apps[j].writes().len() && (i != j || k
                    != l) implies #[trigger] c.net.apps[i].writes()[k]
                != #[trigger] c.net.apps[j].writes()[l] by {
                assert(b.net.apps[i].writes()[k] != b.net.apps[j].writes()[l]);
            }
        }
        assert(c.net.inputs_unwritten()) by {
            assert forall|i: int, j: int, l: int|
                0 <= i < c.net.graph_inputs.len() && 0 <= j < c.net.apps.len() && 0 <= l
                    < c.net.apps[j].writes().len() implies #[trigger] c.net.graph_inputs[i]
                != #[trigger] c.net.apps[j].writes()[l] by {
                assert(b.net.graph_inputs[i] != b.net.apps[j].writes()[l]);
            }
        }
    }
}

/// A literal keeps the builder sound.
proof fn lemma_constant(b: builder::BuilderModel, t: types::TypeModel, value: app::PayloadModel)
    requires
        sound(b),
    ensures
        sound(b.constant(t, value).0),
{
    let c: builder::BuilderModel = b.constant(t, value).0;
    if c.net.wire_types.len() <= wire_limit() && b.constant(t, value).1 is Ok {
        let out: Wire = b.fresh();
        let a: app::AppModel = app::AppModel::Const { out, value };
        assert(b.net.wire_types.push(t) =~= b.net.wire_types + seq![t]);
        assert(grown(b, c, seq![t], a));
        assert(c.net.typ(out) == t);
        assert(c.net.typed(a)) by {
            assert(a.reads() == Seq::<Wire>::empty());
            assert(a.writes() == seq![out]);
        }
        lemma_emit(b, c, seq![t], a);
    }
}

/// Whatever is called on a sound builder, and whether it succeeds or is refused, the builder
/// stays sound.
pub proof fn law_step_keeps_sound(b: builder::BuilderModel, step: Step)
    requires
        sound(b),
    ensures
        sound(step.apply(b)),
{
    match step {
        Step::Input(t) => lemma_input(b, t),
        Step::Complex(c) => lemma_complex(b, c),
        Step::Constant(t, v) => lemma_constant(b, t, v),
        Step::Contract(i, e, ib, ob) => lemma_contract(b, i, e, ib, ob),
        Step::Cast(inp, to) => {
            if b.net.knows(inp) {
                let t: types::TypeModel = types::TypeModel { dtype: to, shape: b.net.typ(inp).shape };
                lemma_unary(b, inp, t, app::AppModel::Cast { inp, out: b.fresh() });
            }
        },
        Step::Reshape(inp, new_shape) => {
            if b.reshape(inp, new_shape).0 != b {
                let t: types::TypeModel = types::TypeModel {
                    dtype: b.net.typ(inp).dtype,
                    shape: new_shape,
                };
                lemma_unary(b, inp, t, app::AppModel::Reshape { new_shape, inp, out: b.fresh() });
            }
        },
        Step::Broadcast(inp, to_shape) => {
            if b.broadcast_to(inp, to_shape).0 != b {
                let t: types::TypeModel = types::TypeModel {
                    dtype: b.net.typ(inp).dtype,
                    shape: to_shape,
                };
                lemma_unary(b, inp, t, app::AppModel::Broadcast { to_shape, inp, out: b.fresh() });
            }
        },
        Step::Cell(complex_idx, inp) => {
            if b.cell(complex_idx, inp).1 is Ok {
                let n: nat = b.net.complexes[complex_idx as int].cells.len();
                let m: builder::BuilderModel = b.consume(inp)->Ok_0;
                let outs: Seq<Wire> = m.fresh_many(n);
                let t: types::TypeModel = types::TypeModel {
                    dtype: Dtype::boolean(),
                    shape: Seq::empty(),
                };
                let a: app::AppModel = app::AppModel::Cell { complex_idx, inp, outs };
                lemma_fan(b, m, inp, t, n, a);
            }
        },
        Step::Copy(inp, k) => {
            if b.copy(inp, k).1 is Ok {
                let m: builder::BuilderModel = b.consume(inp)->Ok_0;
                let outs: Seq<Wire> = m.fresh_many(k as nat);
                let a: app::AppModel = app::AppModel::Copy { inp, outs };
                lemma_fan(b, m, inp, b.net.typ(inp), k as nat, a);
            }
        },
        Step::Delete(inp) => {
            let c: builder::BuilderModel = b.delete(inp).0;
            if b.delete(inp).1 is Ok && c.net.wire_types.len() <= wire_limit() {
                let a: app::AppModel = app::AppModel::Delete { inp };
                assert(b.net.wire_types =~= b.net.wire_types + Seq::empty());
                assert(grown(b, c, Seq::empty(), a));
                assert(a.reads() == seq![inp]);
                lemma_emit(b, c, Seq::empty(), a);
            }
        },
        Step::Swap(i, j) => lemma_swap(b, i, j),
        Step::Stack(i) => lemma_stack(b, i),
    }
}

/// A builder is sound after any list of calls.
pub proof fn law_builder_is_sound(steps: Seq<Step>)
    ensures
        sound(run(start(), steps)),
    decreases steps.len(),
{
    if steps.len() > 0 {
        law_builder_is_sound(steps.drop_last());
        law_step_keeps_sound(run(start(), steps.drop_last()), steps.last());
    }
}

/// The outputs that a builder accepts are allocated.
proof fn lemma_outputs_known(b: builder::BuilderModel, outs: Seq<Wire>, n: int)
    requires
        0 <= n <= outs.len(),
        b.outputs_fault(outs, n) is None,
    ensures
        forall|i: int| 0 <= i < n ==> b.net.knows(#[trigger] outs[i]),
    decreases n,
{
    if n > 0 {
        lemma_outputs_known(b, outs, n - 1);
    }
}

/// An output is refused because it is unknown or consumed.
proof fn lemma_outputs_refused(b: builder::BuilderModel, outs: Seq<Wire>, n: int)
    ensures
        b.outputs_fault(outs, n) matches Some(e) ==> e is UnknownWire || e is OutputConsumed,
    decreases n,
{
    if n > 0 {
        lemma_outputs_refused(b, outs, n - 1);
    }
}

/// A graph that a builder made is well formed, and the preflight that closes it never finds
/// anything, as long as its wires can all be named.
pub proof fn law_built_graph_is_well_formed(steps: Seq<Step>, outs: Seq<Wire>)
    requires
        run(start(), steps).net.wire_types.len() <= wire_limit(),
    ensures
        ({
            let b = run(start(), steps);
            &&& !(b.finish(outs) matches Err(builder::BuildFault::Preflight(_)))
            &&& b.finish(outs) matches Ok(net) ==> net.well_formed()
        }),
{
    let b: builder::BuilderModel = run(start(), steps);
    law_builder_is_sound(steps);
    lemma_outputs_refused(b, outs, outs.len() as int);
    if b.outputs_fault(outs, outs.len() as int) is None {
        lemma_outputs_known(b, outs, outs.len() as int);
        let net: graph::NetModel = graph::NetModel { graph_outputs: outs, ..b.net };
        assert forall|w: Wire, m: int| b.net.available(w, m) implies #[trigger] net.available(
            w,
            m,
        ) by {}
        assert(extends(b.net, net));
        assert forall|i: int| 0 <= i < net.apps.len() implies net.typed(#[trigger] net.apps[i]) by {
            lemma_stays_typed(b.net, net, b.net.apps[i]);
        }
        assert forall|i: int, k: int|
            0 <= i < net.apps.len() && 0 <= k < net.apps[i].reads().len() implies net.available(
            #[trigger] net.apps[i].reads()[k],
            i,
        ) by {
            assert(b.net.available(b.net.apps[i].reads()[k], i));
        }
        assert forall|i: int| 0 <= i < outs.len() implies net.available(
            #[trigger] net.graph_outputs[i],
            net.apps.len() as int,
        ) by {
            assert(b.net.knows(outs[i]));
            assert(b.net.available(outs[i], b.net.apps.len() as int));
        }
        assert forall|i: int| 0 <= i < net.complexes.len() implies (
        #[trigger] net.complexes[i]).sound() by {
            assert(b.net.complexes[i].sound());
        }
        assert(net.reads_once()) by {
            assert forall|i: int, k: int, j: int, l: int|
                0 <= i < net.apps.len() && 0 <= k < net.apps[i].reads().len() && 0 <= j
                    < net.apps.len() && 0 <= l < net.apps[j].reads().len() && (i != j || k
                    != l) implies #[trigger] net.apps[i].reads()[k]
                != #[trigger] net.apps[j].reads()[l] by {
                assert(b.net.apps[i].reads()[k] != b.net.apps[j].reads()[l]);
            }
        }
        assert(net.writes_once()) by {
            assert forall|i: int, k: int, j: int, l: int|
                0 <= i < net.apps.len() && 0 <= k < net.apps[i].writes().len() && 0 <= j
                    < net.apps.len() && 0 <= l < net.apps[j].writes().len() && (i != j || k
                    != l) implies #[trigger] net.apps[i].writes()[k]
                != #[trigger] net.apps[j].writes()[l] by {
                assert(b.net.apps[i].writes()[k] != b.net.apps[j].writes()[l]);
            }
        }
        assert(net.inputs_unwritten()) by {
            assert forall|i: int, j: int, l: int|
                0 <= i < net.graph_inputs.len() && 0 <= j < net.apps.len() && 0 <= l
                    < net.apps[j].writes().len() implies #[trigger] net.graph_inputs[i]
                != #[trigger] net.apps[j].writes()[l] by {
                assert(b.net.graph_inputs[i] != b.net.apps[j].writes()[l]);
            }
        }
        assert(net.ordered());
        assert(net.well_formed());
        wellformed::law_preflight_decides(net);
        assert(b.finish(outs) == Ok::<graph::NetModel, builder::BuildFault>(net));
    }
}

} // verus!
