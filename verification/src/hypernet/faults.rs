//! What can be wrong with a graph, as the contracts speak of it.

use super::app;
use super::app::Wire;
use super::graph;
use super::simplex;
use super::simplex::SimpCViolation;
use super::types;
use super::types::{Dtype, Kind};
use vstd::prelude::*;

verus! {

/// A typing fault of one box.
#[verifier::ext_equal]
pub enum TypeFault {
    /// The payload does not have as many entries as the type.
    ConstPayloadSize { expected: u64, got: u64 },
    /// The payload does not fit the kind.
    ConstPayloadKind { kind: Kind, rational_payload: bool },
    /// Inputs and bindings differ in number.
    ContractArity { inputs: u32, bindings: u32 },
    /// An input's element type differs from the output's.
    ContractInputDtype { input: u32 },
    /// An input has more or fewer axes than are bound.
    ContractInputRank { input: u32, rank: u32, bindings: u32 },
    /// An input axis does not have its index's extent.
    ContractInputExtent { input: u32, axis: u32, extent: u64, index: u32 },
    /// The output has more or fewer axes than are bound.
    ContractOutputRank { rank: u32, bindings: u32 },
    /// An output axis does not have its index's extent.
    ContractOutputExtent { axis: u32, index: u32 },
    /// A cast changes the shape.
    CastShape,
    /// A cell's input is not a point of the ambient space.
    CellInputType { amb_dim: u32, got: types::TypeModel },
    /// A cell has more or fewer outputs than its complex has cells.
    CellArity { outs: u32, cells: u32 },
    /// A cell's output is not a boolean scalar.
    CellOutputNotBoolScalar { wire: Wire },
    /// A reshape changes the number of entries, or its output does not have the new shape.
    ReshapeSize { from_size: u64, to_size: u64 },
    /// A reshape changes the element type.
    ReshapeDtype,
    /// The input does not broadcast, or the output does not have the new shape.
    BroadcastShape { from: Seq<u64>, to: Seq<u64> },
    /// A copy changes the type.
    CopyOutputType { wire: Wire },
    /// A swap does not exchange the types.
    SwapType,
    /// The inputs of a stack differ in type.
    StackInputType { wire: Wire },
    /// The output of a stack does not have the stacked shape.
    StackOutputShape { got: Seq<u64>, expected: Seq<u64> },
    /// A stack changes the element type.
    StackDtype,
}

/// A fault of a graph.
#[verifier::ext_equal]
pub enum Fault {
    /// A wire is consumed twice.
    WireConsumedTwice { wire: Wire, first_app: u32, second_app: u32 },
    /// A wire is produced twice.
    WireProducedTwice { wire: Wire, first_app: u32, second_app: u32 },
    /// A graph input is produced.
    GraphInputProduced { wire: Wire, app: u32 },
    /// A wire is read before it is produced.
    ReadBeforeProduction { app: u32, box_name: &'static str, wire: Wire },
    /// A graph output is never produced.
    GraphOutputNeverProduced { wire: Wire },
    /// A wire has no type.
    WireOutOfRange { app: u32, wire: Wire, table_len: u32 },
    /// A complex does not exist.
    ComplexIndexOutOfRange { app: u32, complex_idx: u32, pool_len: u32 },
    /// A box is ill-typed.
    Typing { app: u32, box_name: &'static str, violation: TypeFault },
    /// A pooled complex has a defect.
    Complex { complex_idx: u32, violation: SimpCViolation },
}

/// One fault where a condition holds, else none.
pub open spec fn when<T>(cond: bool, fault: T) -> Seq<T> {
    if cond {
        seq![fault]
    } else {
        Seq::empty()
    }
}

impl graph::NetModel {
    /// The type of wire `w`.
    pub open spec fn typ(self, w: Wire) -> types::TypeModel {
        self.wire_types[w as int]
    }

    /// What is wrong with axis `ax` of input `k` of a contraction.
    pub open spec fn input_axis_faults(
        self,
        shape: Seq<u64>,
        extents: Seq<u64>,
        bnd: Seq<u32>,
        k: int,
    ) -> spec_fn(int) -> Seq<TypeFault> {
        |ax: int|
            when(
                bnd[ax] >= extents.len() || shape[ax] != extents[bnd[ax] as int],
                TypeFault::ContractInputExtent {
                    input: k as u32,
                    axis: ax as u32,
                    extent: shape[ax],
                    index: bnd[ax],
                },
            )
    }

    /// What is wrong with the inputs of a contraction.
    pub open spec fn input_faults(
        self,
        inputs: Seq<Wire>,
        output: Wire,
        extents: Seq<u64>,
        in_bindings: Seq<Seq<u32>>,
    ) -> spec_fn(int) -> Seq<TypeFault> {
        |k: int|
            {
                let t = self.typ(inputs[k]);
                let bnd = in_bindings[k];
                when(
                    t.dtype != self.typ(output).dtype,
                    TypeFault::ContractInputDtype { input: k as u32 },
                ) + if t.shape.len() != bnd.len() {
                    seq![
                        TypeFault::ContractInputRank {
                            input: k as u32,
                            rank: t.shape.len() as u32,
                            bindings: bnd.len() as u32,
                        },
                    ]
                } else {
                    simplex::flat(
                        self.input_axis_faults(t.shape, extents, bnd, k),
                        bnd.len() as int,
                    )
                }
            }
    }

    /// What is wrong with axis `ax` of the output of a contraction.
    pub open spec fn output_axis_faults(
        self,
        shape: Seq<u64>,
        extents: Seq<u64>,
        bnd: Seq<u32>,
    ) -> spec_fn(int) -> Seq<TypeFault> {
        |ax: int|
            when(
                bnd[ax] >= extents.len() || shape[ax] != extents[bnd[ax] as int],
                TypeFault::ContractOutputExtent { axis: ax as u32, index: bnd[ax] },
            )
    }

    /// What is wrong with the output of a contraction.
    pub open spec fn output_faults(
        self,
        output: Wire,
        extents: Seq<u64>,
        bnd: Seq<u32>,
    ) -> Seq<TypeFault> {
        let shape = self.typ(output).shape;
        if shape.len() != bnd.len() {
            seq![
                TypeFault::ContractOutputRank {
                    rank: shape.len() as u32,
                    bindings: bnd.len() as u32,
                },
            ]
        } else {
            simplex::flat(self.output_axis_faults(shape, extents, bnd), bnd.len() as int)
        }
    }

    /// Which of the output wires `outs` of a cell are no boolean scalars.
    pub open spec fn cell_output_faults(self, outs: Seq<Wire>) -> spec_fn(int) -> Seq<TypeFault> {
        |i: int|
            when(
                self.typ(outs[i]) != (types::TypeModel {
                    dtype: Dtype::boolean(),
                    shape: Seq::empty(),
                }),
                TypeFault::CellOutputNotBoolScalar { wire: outs[i] },
            )
    }

    /// Which of the output wires of a copy differ from the input.
    pub open spec fn copy_faults(self, inp: Wire, outs: Seq<Wire>) -> spec_fn(int) -> Seq<
        TypeFault,
    > {
        |i: int|
            when(
                self.typ(outs[i]) != self.typ(inp),
                TypeFault::CopyOutputType { wire: outs[i] },
            )
    }

    /// Which of the further inputs of a stack differ from the first.
    pub open spec fn stack_faults(self, inputs: Seq<Wire>) -> spec_fn(int) -> Seq<TypeFault> {
        |i: int|
            when(
                i > 0 && self.typ(inputs[i]) != self.typ(inputs[0]),
                TypeFault::StackInputType { wire: inputs[i] },
            )
    }

    /// What is wrong with the types of an application whose wires and complex exist.
    pub open spec fn type_faults(self, a: app::AppModel) -> Seq<TypeFault> {
        match a {
            app::AppModel::Const { out, value } => {
                let t = self.typ(out);
                when(
                    value.len() != types::entries(t.shape),
                    TypeFault::ConstPayloadSize {
                        expected: types::entries(t.shape),
                        got: value.len() as u64,
                    },
                ) + when(
                    (t.dtype.kind == Kind::Rat) != (value is Rat),
                    TypeFault::ConstPayloadKind {
                        kind: t.dtype.kind,
                        rational_payload: value is Rat,
                    },
                )
            },
            app::AppModel::Contract { inputs, output, extents, in_bindings, out_binding } => {
                if inputs.len() != in_bindings.len() {
                    seq![
                        TypeFault::ContractArity {
                            inputs: inputs.len() as u32,
                            bindings: in_bindings.len() as u32,
                        },
                    ]
                } else {
                    simplex::flat(
                        self.input_faults(inputs, output, extents, in_bindings),
                        inputs.len() as int,
                    ) + self.output_faults(output, extents, out_binding)
                }
            },
            app::AppModel::Cast { inp, out } => when(
                self.typ(inp).shape != self.typ(out).shape,
                TypeFault::CastShape,
            ),
            app::AppModel::Cell { complex_idx, inp, outs } => {
                let c = self.complexes[complex_idx as int];
                let t = self.typ(inp);
                when(
                    t.shape != seq![c.amb_dim as u64] || t.dtype.kind != Kind::Rat,
                    TypeFault::CellInputType { amb_dim: c.amb_dim, got: t },
                ) + when(
                    outs.len() != c.cells.len(),
                    TypeFault::CellArity { outs: outs.len() as u32, cells: c.cells.len() as u32 },
                ) + simplex::flat(self.cell_output_faults(outs), outs.len() as int)
            },
            app::AppModel::Reshape { new_shape, inp, out } => {
                let t = self.typ(inp);
                let u = self.typ(out);
                when(
                    types::entries(t.shape) != types::entries(u.shape) || u.shape != new_shape,
                    TypeFault::ReshapeSize {
                        from_size: types::entries(t.shape),
                        to_size: types::entries(u.shape),
                    },
                ) + when(t.dtype != u.dtype, TypeFault::ReshapeDtype)
            },
            app::AppModel::Broadcast { to_shape, inp, out } => when(
                !types::broadcasts(self.typ(inp).shape, to_shape) || self.typ(out).shape
                    != to_shape,
                TypeFault::BroadcastShape { from: self.typ(inp).shape, to: to_shape },
            ),
            app::AppModel::Copy { inp, outs } => simplex::flat(
                self.copy_faults(inp, outs),
                outs.len() as int,
            ),
            app::AppModel::Delete { .. } => Seq::empty(),
            app::AppModel::Swap { in1, in2, out1, out2 } => when(
                self.typ(out1) != self.typ(in2) || self.typ(out2) != self.typ(in1),
                TypeFault::SwapType,
            ),
            app::AppModel::Stack { inputs, output } => {
                if inputs.len() == 0 {
                    seq![
                        TypeFault::StackOutputShape {
                            got: self.typ(output).shape,
                            expected: seq![0u64],
                        },
                    ]
                } else {
                    let t = self.typ(inputs[0]);
                    let u = self.typ(output);
                    let expected = seq![inputs.len() as u64] + t.shape;
                    simplex::flat(self.stack_faults(inputs), inputs.len() as int) + when(
                        u.shape != expected,
                        TypeFault::StackOutputShape { got: u.shape, expected },
                    ) + when(u.dtype != t.dtype, TypeFault::StackDtype)
                }
            },
        }
    }

    /// Which of the wires of an application have no type.
    pub open spec fn range_faults(self, idx: u32, wires: Seq<Wire>) -> spec_fn(int) -> Seq<Fault> {
        |k: int|
            when(
                !self.knows(wires[k]),
                Fault::WireOutOfRange {
                    app: idx,
                    wire: wires[k],
                    table_len: self.wire_types.len() as u32,
                },
            )
    }

    /// Typing faults, attributed to their application.
    pub open spec fn attributed(idx: u32, name: &'static str, s: Seq<TypeFault>) -> Seq<Fault> {
        Seq::new(
            s.len(),
            |i: int| Fault::Typing { app: idx, box_name: name, violation: s[i] },
        )
    }

    /// What is wrong with an application: wires without a type, or else a complex that does
    /// not exist, or else its types.
    pub open spec fn app_faults(self, idx: u32, a: app::AppModel) -> Seq<Fault> {
        let wires = a.reads() + a.writes();
        let outside = simplex::flat(self.range_faults(idx, wires), wires.len() as int);
        if outside.len() > 0 {
            outside
        } else {
            match a {
                app::AppModel::Cell { complex_idx, .. } if complex_idx >= self.complexes.len() => seq![
                    Fault::ComplexIndexOutOfRange {
                        app: idx,
                        complex_idx,
                        pool_len: self.complexes.len() as u32,
                    },
                ],
                _ => Self::attributed(idx, a.name(), self.type_faults(a)),
            }
        }
    }

    /// What is wrong with each application's wires and types.
    pub open spec fn typing_faults(self) -> spec_fn(int) -> Seq<Fault> {
        |n: int| self.app_faults(n as u32, self.apps[n])
    }

    /// What is wrong with each pooled complex.
    pub open spec fn pool_faults(self) -> spec_fn(int) -> Seq<Fault> {
        |i: int|
            {
                let v = self.complexes[i].violations();
                Seq::new(
                    v.len(),
                    |j: int| Fault::Complex { complex_idx: i as u32, violation: v[j] },
                )
            }
    }
}

/// The last application that touched each wire, once the first `k` wires of `ws` are
/// counted for application `idx`.
pub open spec fn noted(m: Map<Wire, u32>, ws: Seq<Wire>, idx: u32, k: int) -> Map<Wire, u32>
    decreases k,
{
    if k <= 0 {
        m
    } else {
        noted(m, ws, idx, k - 1).insert(ws[k - 1], idx)
    }
}

/// The last reader of each wire among the first `n` applications.
pub open spec fn readers(apps: Seq<app::AppModel>, n: int) -> Map<Wire, u32>
    decreases n,
{
    if n <= 0 {
        Map::empty()
    } else {
        let ws = apps[n - 1].reads();
        noted(readers(apps, n - 1), ws, (n - 1) as u32, ws.len() as int)
    }
}

/// The last writer of each wire among the first `n` applications.
pub open spec fn writers(apps: Seq<app::AppModel>, n: int) -> Map<Wire, u32>
    decreases n,
{
    if n <= 0 {
        Map::empty()
    } else {
        let ws = apps[n - 1].writes();
        noted(writers(apps, n - 1), ws, (n - 1) as u32, ws.len() as int)
    }
}

/// The wires that are produced before application `n`.
pub open spec fn seen(inputs: Seq<Wire>, apps: Seq<app::AppModel>, n: int) -> Set<Wire>
    decreases n,
{
    if n <= 0 {
        inputs.to_set()
    } else {
        seen(inputs, apps, n - 1).union(apps[n - 1].writes().to_set())
    }
}

impl graph::NetModel {
    /// Which reads of application `n` come after another read of the same wire.
    pub open spec fn second_reads(self, n: int) -> spec_fn(int) -> Seq<Fault> {
        |k: int|
            {
                let ws = self.apps[n].reads();
                let m = noted(readers(self.apps, n), ws, n as u32, k);
                when(
                    m.contains_key(ws[k]),
                    Fault::WireConsumedTwice {
                        wire: ws[k],
                        first_app: m[ws[k]],
                        second_app: n as u32,
                    },
                )
            }
    }

    /// Which writes of application `n` come after another write of the same wire.
    pub open spec fn second_writes(self, n: int) -> spec_fn(int) -> Seq<Fault> {
        |k: int|
            {
                let ws = self.apps[n].writes();
                let m = noted(writers(self.apps, n), ws, n as u32, k);
                when(
                    m.contains_key(ws[k]),
                    Fault::WireProducedTwice {
                        wire: ws[k],
                        first_app: m[ws[k]],
                        second_app: n as u32,
                    },
                )
            }
    }

    /// Which wires of each application are used a second time.
    pub open spec fn linearity_faults(self) -> spec_fn(int) -> Seq<Fault> {
        |n: int|
            simplex::flat(self.second_reads(n), self.apps[n].reads().len() as int) + simplex::flat(
                self.second_writes(n),
                self.apps[n].writes().len() as int,
            )
    }

    /// Which graph inputs are produced.
    pub open spec fn input_produced_faults(self) -> spec_fn(int) -> Seq<Fault> {
        |i: int|
            {
                let w = self.graph_inputs[i];
                let m = writers(self.apps, self.apps.len() as int);
                when(m.contains_key(w), Fault::GraphInputProduced { wire: w, app: m[w] })
            }
    }

    /// Which wires application `n` reads before they are produced.
    pub open spec fn early_reads(self, n: int) -> spec_fn(int) -> Seq<Fault> {
        |k: int|
            {
                let w = self.apps[n].reads()[k];
                when(
                    !seen(self.graph_inputs, self.apps, n).contains(w),
                    Fault::ReadBeforeProduction {
                        app: n as u32,
                        box_name: self.apps[n].name(),
                        wire: w,
                    },
                )
            }
    }

    /// Which wires each application reads before they are produced.
    pub open spec fn order_faults(self) -> spec_fn(int) -> Seq<Fault> {
        |n: int| simplex::flat(self.early_reads(n), self.apps[n].reads().len() as int)
    }

    /// Which graph outputs are never produced.
    pub open spec fn output_missing_faults(self) -> spec_fn(int) -> Seq<Fault> {
        |i: int|
            {
                let w = self.graph_outputs[i];
                when(
                    !seen(self.graph_inputs, self.apps, self.apps.len() as int).contains(w),
                    Fault::GraphOutputNeverProduced { wire: w },
                )
            }
    }

    /// Everything that is wrong with the graph: wires used twice, wires used out of order,
    /// ill-typed boxes, defective complexes.
    pub open spec fn faults(self) -> Seq<Fault> {
        let n = self.apps.len() as int;
        simplex::flat(self.linearity_faults(), n) + simplex::flat(
            self.input_produced_faults(),
            self.graph_inputs.len() as int,
        ) + simplex::flat(self.order_faults(), n) + simplex::flat(
            self.output_missing_faults(),
            self.graph_outputs.len() as int,
        ) + simplex::flat(self.typing_faults(), n) + simplex::flat(
            self.pool_faults(),
            self.complexes.len() as int,
        )
    }
}

} // verus!
