//! The typed builder: each method checks the typing rule of its box and returns the produced
//! wires.

use super::app;
use super::app::{copy_bindings, copy_wires, App, ConstPayload, Wire};
use super::faults;
use super::graph;
use super::graph::Hypernet;
use super::simplex;
use super::simplex::{SimpC, SimpCViolation};
use super::types;
use super::types::{broadcasts_to, copy_words, count_entries, Dtype, Kind, TensorType};
use super::wf::{TypeViolation, Violation};
use std::collections::BTreeMap;
use vstd::prelude::*;

verus! {

broadcast use {
    vstd::std_specs::btree::group_btree_axioms,
    vstd::laws_cmp::group_laws_cmp,
    vstd::laws_eq::group_laws_eq,
};

/// Why the builder refuses, as the contracts speak of it.
#[verifier::ext_equal]
pub enum BuildFault {
    /// The wire was not allocated by this builder.
    UnknownWire { wire: Wire },
    /// The wire is consumed.
    WireAlreadyConsumed { wire: Wire, by_app: u32 },
    /// A contraction without inputs.
    ContractNoInputs,
    /// The complex does not exist.
    ComplexIndexOutOfRange { complex_idx: u32, pool_len: u32 },
    /// The complex has defects.
    InvalidComplex { complex_idx: u32, violations: Seq<SimpCViolation> },
    /// A copy without branches.
    CopyNoBranches,
    /// A stack without inputs.
    StackNoInputs,
    /// A graph output is consumed.
    OutputConsumed { wire: Wire, by_app: u32 },
    /// The types do not fit.
    Typing(faults::TypeFault),
    /// The finished graph is not well formed.
    Preflight(Seq<faults::Fault>),
}

/// A refusal of the builder, with its geometry.
#[derive(Debug, Clone, PartialEq, Eq)]
pub enum BuildRefusal {
    /// The wire was not allocated by this builder.
    UnknownWire {
        /// The wire.
        wire: Wire,
    },
    /// The wire is consumed; fan-out is the explicit `copy` box.
    WireAlreadyConsumed {
        /// The wire.
        wire: Wire,
        /// Its consumer.
        by_app: u32,
    },
    /// A contraction without inputs: the element type comes from the inputs.
    ContractNoInputs,
    /// The complex does not exist.
    ComplexIndexOutOfRange {
        /// The complex.
        complex_idx: u32,
        /// The number of complexes.
        pool_len: u32,
    },
    /// The complex has defects.
    InvalidComplex {
        /// The place it would have had.
        complex_idx: u32,
        /// The defects.
        violations: Vec<SimpCViolation>,
    },
    /// A copy without branches: a value that nobody reads is discarded by `delete`.
    CopyNoBranches,
    /// A stack without inputs: the output type needs a common input type.
    StackNoInputs,
    /// A graph output is consumed.
    OutputConsumed {
        /// The wire.
        wire: Wire,
        /// Its consumer.
        by_app: u32,
    },
    /// The types do not fit.
    Typing(TypeViolation),
    /// The finished graph is not well formed.
    Preflight(Vec<Violation>),
}

impl View for BuildRefusal {
    type V = BuildFault;

    open spec fn view(&self) -> BuildFault {
        match *self {
            BuildRefusal::UnknownWire { wire } => BuildFault::UnknownWire { wire },
            BuildRefusal::WireAlreadyConsumed { wire, by_app } => {
                BuildFault::WireAlreadyConsumed { wire, by_app }
            },
            BuildRefusal::ContractNoInputs => BuildFault::ContractNoInputs,
            BuildRefusal::ComplexIndexOutOfRange { complex_idx, pool_len } => {
                BuildFault::ComplexIndexOutOfRange { complex_idx, pool_len }
            },
            BuildRefusal::InvalidComplex { complex_idx, violations } => {
                BuildFault::InvalidComplex { complex_idx, violations: violations@ }
            },
            BuildRefusal::CopyNoBranches => BuildFault::CopyNoBranches,
            BuildRefusal::StackNoInputs => BuildFault::StackNoInputs,
            BuildRefusal::OutputConsumed { wire, by_app } => BuildFault::OutputConsumed {
                wire,
                by_app,
            },
            BuildRefusal::Typing(v) => BuildFault::Typing(v@),
            BuildRefusal::Preflight(v) => BuildFault::Preflight(types::views(v@)),
        }
    }
}

/// A result of the builder, as the contracts speak of it.
pub open spec fn outcome<T>(r: Result<T, BuildRefusal>) -> Result<T, BuildFault> {
    match r {
        Ok(x) => Ok(x),
        Err(e) => Err(e@),
    }
}

/// A result of the builder that holds wires.
pub open spec fn wires_outcome(r: Result<Vec<Wire>, BuildRefusal>) -> Result<Seq<Wire>, BuildFault> {
    match r {
        Ok(x) => Ok(x@),
        Err(e) => Err(e@),
    }
}

/// A builder, as the contracts speak of it.
#[verifier::ext_equal]
pub struct BuilderModel {
    /// The graph so far.
    pub net: graph::NetModel,
    /// The consumer of each consumed wire.
    pub consumed: Map<Wire, u32>,
}

impl BuilderModel {
    /// The type of an allocated wire.
    pub open spec fn peek(self, w: Wire) -> Result<types::TypeModel, BuildFault> {
        if self.net.knows(w) {
            Ok(self.net.typ(w))
        } else {
            Err(BuildFault::UnknownWire { wire: w })
        }
    }

    /// Marks a wire as consumed by the next application.
    pub open spec fn consume(self, w: Wire) -> Result<BuilderModel, BuildFault> {
        if self.consumed.contains_key(w) {
            Err(BuildFault::WireAlreadyConsumed { wire: w, by_app: self.consumed[w] })
        } else {
            Ok(
                BuilderModel {
                    consumed: self.consumed.insert(w, self.net.apps.len() as u32),
                    ..self
                },
            )
        }
    }

    /// Consumes the first `k` wires of a list, up to the first that cannot be.
    pub open spec fn consume_first(self, ws: Seq<Wire>, k: int) -> (BuilderModel, Option<BuildFault>)
        decreases k,
    {
        if k <= 0 {
            (self, None)
        } else {
            let (b, fault) = self.consume_first(ws, k - 1);
            match fault {
                Some(e) => (b, Some(e)),
                None => match b.consume(ws[k - 1]) {
                    Ok(c) => (c, None),
                    Err(e) => (b, Some(e)),
                },
            }
        }
    }

    /// The wire that is allocated next.
    pub open spec fn fresh(self) -> Wire {
        self.net.wire_types.len() as u32
    }

    /// Allocates a wire.
    pub open spec fn add_wire(self, t: types::TypeModel) -> BuilderModel {
        BuilderModel {
            net: graph::NetModel { wire_types: self.net.wire_types.push(t), ..self.net },
            ..self
        }
    }

    /// Allocates `n` wires of one type.
    pub open spec fn add_wires(self, t: types::TypeModel, n: nat) -> BuilderModel {
        BuilderModel {
            net: graph::NetModel {
                wire_types: self.net.wire_types + Seq::new(n, |i: int| t),
                ..self.net
            },
            ..self
        }
    }

    /// The `n` wires that are allocated next.
    pub open spec fn fresh_many(self, n: nat) -> Seq<Wire> {
        Seq::new(n, |i: int| (self.net.wire_types.len() + i) as u32)
    }

    /// Appends an application.
    pub open spec fn emit(self, a: app::AppModel) -> BuilderModel {
        BuilderModel { net: graph::NetModel { apps: self.net.apps.push(a), ..self.net }, ..self }
    }

    /// A graph input.
    pub open spec fn with_input(self, t: types::TypeModel) -> BuilderModel {
        let b = self.add_wire(t);
        BuilderModel {
            net: graph::NetModel { graph_inputs: b.net.graph_inputs.push(self.fresh()), ..b.net },
            ..b
        }
    }

    /// A complex.
    pub open spec fn with_complex(self, c: simplex::ComplexModel) -> (
        BuilderModel,
        Result<u32, BuildFault>,
    ) {
        let idx = self.net.complexes.len() as u32;
        if c.violations().len() > 0 {
            (self, Err(BuildFault::InvalidComplex { complex_idx: idx, violations: c.violations() }))
        } else {
            (
                BuilderModel {
                    net: graph::NetModel { complexes: self.net.complexes.push(c), ..self.net },
                    ..self
                },
                Ok(idx),
            )
        }
    }

    /// A `const` box.
    pub open spec fn constant(self, t: types::TypeModel, value: app::PayloadModel) -> (
        BuilderModel,
        Result<Wire, BuildFault>,
    ) {
        let size = types::entries(t.shape);
        if value.len() != size {
            (
                self,
                Err(
                    BuildFault::Typing(
                        faults::TypeFault::ConstPayloadSize {
                            expected: size,
                            got: value.len() as u64,
                        },
                    ),
                ),
            )
        } else if (t.dtype.kind == Kind::Rat) != (value is Rat) {
            (
                self,
                Err(
                    BuildFault::Typing(
                        faults::TypeFault::ConstPayloadKind {
                            kind: t.dtype.kind,
                            rational_payload: value is Rat,
                        },
                    ),
                ),
            )
        } else {
            let out = self.fresh();
            (self.add_wire(t).emit(app::AppModel::Const { out, value }), Ok(out))
        }
    }

    /// The first axis before `n` of input `k` that does not have its extent.
    pub open spec fn axis_fault(
        shape: Seq<u64>,
        extents: Seq<u64>,
        bnd: Seq<u32>,
        k: int,
        n: int,
    ) -> Option<BuildFault>
        decreases n,
    {
        if n <= 0 {
            None
        } else {
            let b = bnd[n - 1];
            match Self::axis_fault(shape, extents, bnd, k, n - 1) {
                Some(e) => Some(e),
                None => if b >= extents.len() || shape[n - 1] != extents[b as int] {
                    Some(
                        BuildFault::Typing(
                            faults::TypeFault::ContractInputExtent {
                                input: k as u32,
                                axis: (n - 1) as u32,
                                extent: shape[n - 1],
                                index: b,
                            },
                        ),
                    )
                } else {
                    None
                },
            }
        }
    }

    /// What is wrong with input `k` of a contraction.
    pub open spec fn input_fault(
        self,
        dtype: Dtype,
        w: Wire,
        extents: Seq<u64>,
        bnd: Seq<u32>,
        k: int,
    ) -> Option<BuildFault> {
        match self.peek(w) {
            Err(e) => Some(e),
            Ok(t) => if t.dtype != dtype {
                Some(
                    BuildFault::Typing(faults::TypeFault::ContractInputDtype { input: k as u32 }),
                )
            } else if t.shape.len() != bnd.len() {
                Some(
                    BuildFault::Typing(
                        faults::TypeFault::ContractInputRank {
                            input: k as u32,
                            rank: t.shape.len() as u32,
                            bindings: bnd.len() as u32,
                        },
                    ),
                )
            } else {
                Self::axis_fault(t.shape, extents, bnd, k, bnd.len() as int)
            },
        }
    }

    /// What is wrong with the first faulty input before `n` of a contraction.
    pub open spec fn inputs_fault(
        self,
        dtype: Dtype,
        inputs: Seq<Wire>,
        extents: Seq<u64>,
        in_bindings: Seq<Seq<u32>>,
        n: int,
    ) -> Option<BuildFault>
        decreases n,
    {
        if n <= 0 {
            None
        } else {
            match self.inputs_fault(dtype, inputs, extents, in_bindings, n - 1) {
                Some(e) => Some(e),
                None => self.input_fault(
                    dtype,
                    inputs[n - 1],
                    extents,
                    in_bindings[n - 1],
                    n - 1,
                ),
            }
        }
    }

    /// The first output axis before `n` that is bound to no index.
    pub open spec fn output_fault(extents: Seq<u64>, bnd: Seq<u32>, n: int) -> Option<BuildFault>
        decreases n,
    {
        if n <= 0 {
            None
        } else {
            match Self::output_fault(extents, bnd, n - 1) {
                Some(e) => Some(e),
                None => if bnd[n - 1] >= extents.len() {
                    Some(
                        BuildFault::Typing(
                            faults::TypeFault::ContractOutputExtent {
                                axis: (n - 1) as u32,
                                index: bnd[n - 1],
                            },
                        ),
                    )
                } else {
                    None
                },
            }
        }
    }

    /// The shape that a binding gives.
    pub open spec fn bound_shape(extents: Seq<u64>, bnd: Seq<u32>) -> Seq<u64> {
        Seq::new(bnd.len(), |i: int| extents[bnd[i] as int])
    }

    /// A `contract` box.
    pub open spec fn contract(
        self,
        inputs: Seq<Wire>,
        extents: Seq<u64>,
        in_bindings: Seq<Seq<u32>>,
        out_binding: Seq<u32>,
    ) -> (BuilderModel, Result<Wire, BuildFault>) {
        let n = inputs.len() as int;
        if n == 0 {
            (self, Err(BuildFault::ContractNoInputs))
        } else if n != in_bindings.len() {
            (
                self,
                Err(
                    BuildFault::Typing(
                        faults::TypeFault::ContractArity {
                            inputs: inputs.len() as u32,
                            bindings: in_bindings.len() as u32,
                        },
                    ),
                ),
            )
        } else {
            match self.peek(inputs[0]) {
                Err(e) => (self, Err(e)),
                Ok(t) => match self.inputs_fault(t.dtype, inputs, extents, in_bindings, n) {
                    Some(e) => (self, Err(e)),
                    None => match Self::output_fault(
                        extents,
                        out_binding,
                        out_binding.len() as int,
                    ) {
                        Some(e) => (self, Err(e)),
                        None => {
                            let (b, fault) = self.consume_first(inputs, n);
                            match fault {
                                Some(e) => (b, Err(e)),
                                None => {
                                    let output = b.fresh();
                                    let shape = Self::bound_shape(extents, out_binding);
                                    (
                                        b.add_wire(types::TypeModel { dtype: t.dtype, shape }).emit(
                                            app::AppModel::Contract {
                                                inputs,
                                                output,
                                                extents,
                                                in_bindings,
                                                out_binding,
                                            },
                                        ),
                                        Ok(output),
                                    )
                                },
                            }
                        },
                    },
                },
            }
        }
    }

    /// A box that consumes one wire and produces one of type `t`.
    pub open spec fn unary(self, inp: Wire, t: types::TypeModel, a: app::AppModel) -> (
        BuilderModel,
        Result<Wire, BuildFault>,
    ) {
        match self.consume(inp) {
            Err(e) => (self, Err(e)),
            Ok(b) => (b.add_wire(t).emit(a), Ok(self.fresh())),
        }
    }

    /// A `cast` box.
    pub open spec fn cast(self, inp: Wire, to: Dtype) -> (BuilderModel, Result<Wire, BuildFault>) {
        match self.peek(inp) {
            Err(e) => (self, Err(e)),
            Ok(t) => self.unary(
                inp,
                types::TypeModel { dtype: to, shape: t.shape },
                app::AppModel::Cast { inp, out: self.fresh() },
            ),
        }
    }

    /// A `cell` box.
    pub open spec fn cell(self, complex_idx: u32, inp: Wire) -> (
        BuilderModel,
        Result<Seq<Wire>, BuildFault>,
    ) {
        if complex_idx >= self.net.complexes.len() {
            (
                self,
                Err(
                    BuildFault::ComplexIndexOutOfRange {
                        complex_idx,
                        pool_len: self.net.complexes.len() as u32,
                    },
                ),
            )
        } else {
            let c = self.net.complexes[complex_idx as int];
            match self.peek(inp) {
                Err(e) => (self, Err(e)),
                Ok(t) => if t.shape != seq![c.amb_dim as u64] || t.dtype.kind != Kind::Rat {
                    (
                        self,
                        Err(
                            BuildFault::Typing(
                                faults::TypeFault::CellInputType { amb_dim: c.amb_dim, got: t },
                            ),
                        ),
                    )
                } else {
                    match self.consume(inp) {
                        Err(e) => (self, Err(e)),
                        Ok(b) => {
                            let outs = b.fresh_many(c.cells.len());
                            let scalar = types::TypeModel {
                                dtype: Dtype::boolean(),
                                shape: Seq::empty(),
                            };
                            (
                                b.add_wires(scalar, c.cells.len()).emit(
                                    app::AppModel::Cell { complex_idx, inp, outs },
                                ),
                                Ok(outs),
                            )
                        },
                    }
                },
            }
        }
    }

    /// A `reshape` box.
    pub open spec fn reshape(self, inp: Wire, new_shape: Seq<u64>) -> (
        BuilderModel,
        Result<Wire, BuildFault>,
    ) {
        match self.peek(inp) {
            Err(e) => (self, Err(e)),
            Ok(t) => if types::entries(t.shape) != types::entries(new_shape) {
                (
                    self,
                    Err(
                        BuildFault::Typing(
                            faults::TypeFault::ReshapeSize {
                                from_size: types::entries(t.shape),
                                to_size: types::entries(new_shape),
                            },
                        ),
                    ),
                )
            } else {
                self.unary(
                    inp,
                    types::TypeModel { dtype: t.dtype, shape: new_shape },
                    app::AppModel::Reshape { new_shape, inp, out: self.fresh() },
                )
            },
        }
    }

    /// A `broadcast` box.
    pub open spec fn broadcast_to(self, inp: Wire, to_shape: Seq<u64>) -> (
        BuilderModel,
        Result<Wire, BuildFault>,
    ) {
        match self.peek(inp) {
            Err(e) => (self, Err(e)),
            Ok(t) => if !types::broadcasts(t.shape, to_shape) {
                (
                    self,
                    Err(
                        BuildFault::Typing(
                            faults::TypeFault::BroadcastShape { from: t.shape, to: to_shape },
                        ),
                    ),
                )
            } else {
                self.unary(
                    inp,
                    types::TypeModel { dtype: t.dtype, shape: to_shape },
                    app::AppModel::Broadcast { to_shape, inp, out: self.fresh() },
                )
            },
        }
    }

    /// A `copy` box.
    pub open spec fn copy(self, inp: Wire, k: u32) -> (BuilderModel, Result<Seq<Wire>, BuildFault>) {
        if k == 0 {
            (self, Err(BuildFault::CopyNoBranches))
        } else {
            match self.peek(inp) {
                Err(e) => (self, Err(e)),
                Ok(t) => match self.consume(inp) {
                    Err(e) => (self, Err(e)),
                    Ok(b) => {
                        let outs = b.fresh_many(k as nat);
                        (
                            b.add_wires(t, k as nat).emit(app::AppModel::Copy { inp, outs }),
                            Ok(outs),
                        )
                    },
                },
            }
        }
    }

    /// A `delete` box.
    pub open spec fn delete(self, inp: Wire) -> (BuilderModel, Result<(), BuildFault>) {
        match self.peek(inp) {
            Err(e) => (self, Err(e)),
            Ok(t) => match self.consume(inp) {
                Err(e) => (self, Err(e)),
                Ok(b) => (b.emit(app::AppModel::Delete { inp }), Ok(())),
            },
        }
    }

    /// A `swap` box.
    pub open spec fn swap(self, in1: Wire, in2: Wire) -> (
        BuilderModel,
        Result<(Wire, Wire), BuildFault>,
    ) {
        match self.peek(in1) {
            Err(e) => (self, Err(e)),
            Ok(t1) => match self.peek(in2) {
                Err(e) => (self, Err(e)),
                Ok(t2) => match self.consume(in1) {
                    Err(e) => (self, Err(e)),
                    Ok(b) => match b.consume(in2) {
                        Err(e) => (b, Err(e)),
                        Ok(c) => {
                            let out1 = c.fresh();
                            let out2 = c.add_wire(t2).fresh();
                            (
                                c.add_wire(t2).add_wire(t1).emit(
                                    app::AppModel::Swap { in1, in2, out1, out2 },
                                ),
                                Ok((out1, out2)),
                            )
                        },
                    },
                },
            },
        }
    }

    /// What is wrong with the first input before `n` that does not have the type `t`.
    pub open spec fn stack_fault(self, t: types::TypeModel, inputs: Seq<Wire>, n: int) -> Option<
        BuildFault,
    >
        decreases n,
    {
        if n <= 1 {
            None
        } else {
            match self.stack_fault(t, inputs, n - 1) {
                Some(e) => Some(e),
                None => match self.peek(inputs[n - 1]) {
                    Err(e) => Some(e),
                    Ok(u) => if u != t {
                        Some(
                            BuildFault::Typing(
                                faults::TypeFault::StackInputType { wire: inputs[n - 1] },
                            ),
                        )
                    } else {
                        None
                    },
                },
            }
        }
    }

    /// A `stack` box.
    pub open spec fn stack(self, inputs: Seq<Wire>) -> (BuilderModel, Result<Wire, BuildFault>) {
        let n = inputs.len() as int;
        if n == 0 {
            (self, Err(BuildFault::StackNoInputs))
        } else {
            match self.peek(inputs[0]) {
                Err(e) => (self, Err(e)),
                Ok(t) => match self.stack_fault(t, inputs, n) {
                    Some(e) => (self, Err(e)),
                    None => {
                        let (b, fault) = self.consume_first(inputs, n);
                        match fault {
                            Some(e) => (b, Err(e)),
                            None => {
                                let output = b.fresh();
                                let shape = seq![inputs.len() as u64] + t.shape;
                                (
                                    b.add_wire(types::TypeModel { dtype: t.dtype, shape }).emit(
                                        app::AppModel::Stack { inputs, output },
                                    ),
                                    Ok(output),
                                )
                            },
                        }
                    },
                },
            }
        }
    }

    /// The first graph output before `n` that is unknown or consumed.
    pub open spec fn outputs_fault(self, outs: Seq<Wire>, n: int) -> Option<BuildFault>
        decreases n,
    {
        if n <= 0 {
            None
        } else {
            let w = outs[n - 1];
            match self.outputs_fault(outs, n - 1) {
                Some(e) => Some(e),
                None => if !self.net.knows(w) {
                    Some(BuildFault::UnknownWire { wire: w })
                } else if self.consumed.contains_key(w) {
                    Some(BuildFault::OutputConsumed { wire: w, by_app: self.consumed[w] })
                } else {
                    None
                },
            }
        }
    }

    /// The finished graph.
    pub open spec fn finish(self, outs: Seq<Wire>) -> Result<graph::NetModel, BuildFault> {
        match self.outputs_fault(outs, outs.len() as int) {
            Some(e) => Err(e),
            None => {
                let net = graph::NetModel { graph_outputs: outs, ..self.net };
                if net.faults().len() > 0 {
                    Err(BuildFault::Preflight(net.faults()))
                } else {
                    Ok(net)
                }
            },
        }
    }
}

/// Typed construction of a graph.
#[derive(Debug)]
pub struct HypernetBuilder {
    net: Hypernet,
    consumed: BTreeMap<Wire, u32>,
}

impl View for HypernetBuilder {
    type V = BuilderModel;

    closed spec fn view(&self) -> BuilderModel {
        BuilderModel { net: self.net@, consumed: self.consumed@ }
    }
}

impl Default for HypernetBuilder {
    fn default() -> (r: HypernetBuilder)
        ensures
            r@ == (BuilderModel { net: graph::NetModel::empty(), consumed: Map::empty() }),
            r.names() == Map::<Wire, Seq<char>>::empty(),
            r.hints() == Seq::<Seq<char>>::empty(),
    {
        HypernetBuilder::new()
    }
}

impl Clone for HypernetBuilder {
    fn clone(&self) -> (r: HypernetBuilder)
        ensures
            r@ == self@,
            r.names() == self.names(),
            r.hints() == self.hints(),
    {
        HypernetBuilder { net: self.net.clone(), consumed: self.consumed.clone() }
    }
}

impl HypernetBuilder {
    /// The debug names.
    pub closed spec fn names(&self) -> Map<Wire, Seq<char>> {
        self.net.wire_names@.map_values(|s: String| s@)
    }

    /// The hints of the pooled complexes.
    pub closed spec fn hints(&self) -> Seq<Seq<char>> {
        self.net.hints()
    }

    /// A builder of the graph without wires.
    pub fn new() -> (r: HypernetBuilder)
        ensures
            r@ == (BuilderModel { net: graph::NetModel::empty(), consumed: Map::empty() }),
            r.names() == Map::<Wire, Seq<char>>::empty(),
            r.hints() == Seq::<Seq<char>>::empty(),
    {
        let r: HypernetBuilder = HypernetBuilder {
            net: Hypernet::default(),
            consumed: BTreeMap::new(),
        };
        assert(r.names() =~= Map::<Wire, Seq<char>>::empty());
        r
    }

    /// Allocates a wire.
    fn add_wire(&mut self, ty: TensorType) -> (w: Wire)
        ensures
            w == old(self)@.fresh(),
            final(self)@ == old(self)@.add_wire(ty@),
            final(self).names() == old(self).names(),
            final(self).hints() == old(self).hints(),
    {
        let ghost before: graph::NetModel = self.net@;
        let w: Wire = self.net.wire_types.len() as Wire;
        self.net.wire_types.push(ty);
        assert(self.net@.wire_types =~= before.wire_types.push(ty@));
        assert(self.net@ =~= (graph::NetModel {
            wire_types: before.wire_types.push(ty@),
            ..before
        }));
        w
    }

    /// Allocates `n` wires of one type.
    fn add_wires(&mut self, ty: &TensorType, n: usize) -> (ws: Vec<Wire>)
        ensures
            ws@ == old(self)@.fresh_many(n as nat),
            final(self)@ == old(self)@.add_wires(ty@, n as nat),
            final(self).names() == old(self).names(),
            final(self).hints() == old(self).hints(),
    {
        let ghost b: BuilderModel = self@;
        let ghost names: Map<Wire, Seq<char>> = self.names();
        let ghost hints: Seq<Seq<char>> = self.hints();
        let mut ws: Vec<Wire> = Vec::new();
        let mut i: usize = 0;
        assert(self@ =~= b.add_wires(ty@, 0));
        while i < n
            invariant
                i <= n,
                ws@.len() == i,
                self@ == b.add_wires(ty@, i as nat),
                self.names() == names,
                self.hints() == hints,
                forall|j: int| 0 <= j < i ==> ws@[j] == #[trigger] b.fresh_many(n as nat)[j],
            decreases n - i,
        {
            let w: Wire = self.add_wire(ty.clone());
            ws.push(w);
            i = i + 1;
            assert(self@.net.wire_types =~= b.add_wires(ty@, i as nat).net.wire_types);
            assert(self@ =~= b.add_wires(ty@, i as nat));
        }
        assert(ws@ =~= b.fresh_many(n as nat));
        ws
    }

    /// Appends an application.
    fn emit(&mut self, a: App)
        ensures
            final(self)@ == old(self)@.emit(a@),
            final(self).names() == old(self).names(),
            final(self).hints() == old(self).hints(),
    {
        let ghost before: graph::NetModel = self.net@;
        self.net.apps.push(a);
        assert(self.net@.apps =~= before.apps.push(a@));
        assert(self.net@ =~= (graph::NetModel { apps: before.apps.push(a@), ..before }));
    }

    /// The type of an allocated wire.
    fn peek(&self, w: Wire) -> (r: Result<&TensorType, BuildRefusal>)
        ensures
            match self@.peek(w) {
                Ok(t) => r matches Ok(x) && x@ == t,
                Err(e) => r matches Err(f) && f@ == e,
            },
    {
        match self.net.wtype(w) {
            Some(t) => Ok(t),
            None => Err(BuildRefusal::UnknownWire { wire: w }),
        }
    }

    /// Marks a wire as consumed by the next application.
    fn consume(&mut self, w: Wire) -> (r: Result<(), BuildRefusal>)
        ensures
            match old(self)@.consume(w) {
                Ok(b) => r is Ok && final(self)@ == b,
                Err(e) => final(self)@ == old(self)@ && (r matches Err(f) && f@ == e),
            },
            final(self).names() == old(self).names(),
            final(self).hints() == old(self).hints(),
    {
        if let Some(by_app) = self.consumed.get(&w) {
            return Err(BuildRefusal::WireAlreadyConsumed { wire: w, by_app: *by_app });
        }
        self.consumed.insert(w, self.net.apps.len() as u32);
        Ok(())
    }

    /// Consumes the wires of a list, up to the first that cannot be.
    fn consume_all(&mut self, ws: &[Wire]) -> (r: Result<(), BuildRefusal>)
        ensures
            final(self)@ == old(self)@.consume_first(ws@, ws@.len() as int).0,
            match old(self)@.consume_first(ws@, ws@.len() as int).1 {
                None => r is Ok,
                Some(e) => r matches Err(f) && f@ == e,
            },
            final(self).names() == old(self).names(),
            final(self).hints() == old(self).hints(),
    {
        let ghost b: BuilderModel = self@;
        let ghost names: Map<Wire, Seq<char>> = self.names();
        let ghost hints: Seq<Seq<char>> = self.hints();
        let mut i: usize = 0;
        while i < ws.len()
            invariant
                b == old(self)@,
                names == old(self).names(),
                hints == old(self).hints(),
                self.names() == names,
                self.hints() == hints,
                i <= ws@.len(),
                (self@, None::<BuildFault>) == b.consume_first(ws@, i as int),
            decreases ws@.len() - i,
        {
            match self.consume(ws[i]) {
                Err(e) => {
                    proof {
                        lemma_consume_stops(b, ws@, i + 1, ws@.len() as int);
                    }
                    return Err(e);
                },
                Ok(()) => {},
            }
            i = i + 1;
        }
        Ok(())
    }

    /// Declares a graph input; returns its wire.
    pub fn input(&mut self, ty: TensorType) -> (w: Wire)
        ensures
            w == old(self)@.fresh(),
            final(self)@ == old(self)@.with_input(ty@),
            final(self).names() == old(self).names(),
            final(self).hints() == old(self).hints(),
    {
        let w: Wire = self.add_wire(ty);
        self.net.graph_inputs.push(w);
        assert(self@ =~= old(self)@.with_input(ty@));
        w
    }

    /// Declares a graph input with a debug name, unless the name is empty.
    pub fn input_named(&mut self, ty: TensorType, name: &str) -> (w: Wire)
        ensures
            w == old(self)@.fresh(),
            final(self)@ == old(self)@.with_input(ty@),
            final(self).names() == (if name@.len() == 0 {
                old(self).names()
            } else {
                old(self).names().insert(w, name@)
            }),
            final(self).hints() == old(self).hints(),
    {
        let w: Wire = self.input(ty);
        self.name_wire(w, name);
        w
    }

    /// Attaches a debug name to a wire, unless the name is empty.
    pub fn name_wire(&mut self, w: Wire, name: &str)
        ensures
            final(self)@ == old(self)@,
            final(self).names() == (if name@.len() == 0 {
                old(self).names()
            } else {
                old(self).names().insert(w, name@)
            }),
            final(self).hints() == old(self).hints(),
    {
        if name.unicode_len() > 0 {
            self.net.wire_names.insert(w, name.to_owned());
            assert(self.names() =~= old(self).names().insert(w, name@));
        }
    }

    /// The type of a wire that this builder has allocated, if it has.
    pub fn wire_type(&self, w: Wire) -> (r: Option<&TensorType>)
        ensures
            r is Some <==> self@.net.knows(w),
            r matches Some(t) ==> t@ == self@.net.typ(w),
    {
        self.net.wtype(w)
    }

    /// Adds a complex to the pool; returns its place. A complex with defects is refused.
    pub fn add_complex(&mut self, c: SimpC) -> (r: Result<u32, BuildRefusal>)
        ensures
            (final(self)@, outcome(r)) == old(self)@.with_complex(c@),
            final(self).names() == old(self).names(),
            final(self).hints() == (if r is Ok {
                old(self).hints().push(c.hint@)
            } else {
                old(self).hints()
            }),
    {
        let ghost before: graph::NetModel = self.net@;
        let violations: Vec<SimpCViolation> = c.validate();
        let idx: u32 = self.net.complexes.len() as u32;
        if violations.len() > 0 {
            return Err(BuildRefusal::InvalidComplex { complex_idx: idx, violations });
        }
        self.net.complexes.push(c);
        assert(self.net@.complexes =~= before.complexes.push(c@));
        assert(self.net@ =~= (graph::NetModel {
            complexes: before.complexes.push(c@),
            ..before
        }));
        assert(self.hints() =~= old(self).hints().push(c.hint@));
        Ok(idx)
    }

    /// The `const` box: emits a literal tensor. The payload has as many entries as the type,
    /// rationals for the kind `Rat` and bits for every other.
    pub fn constant(&mut self, ty: TensorType, value: ConstPayload) -> (r: Result<Wire, BuildRefusal>)
        ensures
            (final(self)@, outcome(r)) == old(self)@.constant(ty@, value@),
            final(self).names() == old(self).names(),
            final(self).hints() == old(self).hints(),
    {
        if value.len() as u64 != ty.size() {
            return Err(
                BuildRefusal::Typing(
                    TypeViolation::ConstPayloadSize { expected: ty.size(), got: value.len() as u64 },
                ),
            );
        }
        let want_rat: bool = ty.dtype.kind == Kind::Rat;
        let is_rat: bool = match &value {
            ConstPayload::Rat(_) => true,
            _ => false,
        };
        if want_rat != is_rat {
            return Err(
                BuildRefusal::Typing(
                    TypeViolation::ConstPayloadKind {
                        kind: ty.dtype.kind,
                        rational_payload: is_rat,
                    },
                ),
            );
        }
        let out: Wire = self.add_wire(ty);
        self.emit(App::Const { out, value });
        Ok(out)
    }

    /// What is wrong with input `k` of a contraction.
    fn check_input(&self, dtype: Dtype, w: Wire, extents: &[u64], bnd: &Vec<u32>, k: usize) -> (r:
        Result<(), BuildRefusal>)
        ensures
            match self@.input_fault(dtype, w, extents@, bnd@, k as int) {
                None => r is Ok,
                Some(e) => r matches Err(f) && f@ == e,
            },
    {
        let t: &TensorType = match self.peek(w) {
            Ok(t) => t,
            Err(e) => {
                return Err(e);
            },
        };
        if t.dtype != dtype {
            return Err(
                BuildRefusal::Typing(TypeViolation::ContractInputDtype { input: k as u32 }),
            );
        }
        if t.shape.len() != bnd.len() {
            return Err(
                BuildRefusal::Typing(
                    TypeViolation::ContractInputRank {
                        input: k as u32,
                        rank: t.shape.len() as u32,
                        bindings: bnd.len() as u32,
                    },
                ),
            );
        }
        let mut ax: usize = 0;
        while ax < bnd.len()
            invariant
                t.shape@.len() == bnd@.len(),
                self@.peek(w) == Ok::<types::TypeModel, BuildFault>(t@),
                t@.dtype == dtype,
                ax <= bnd@.len(),
                BuilderModel::axis_fault(t.shape@, extents@, bnd@, k as int, ax as int) is None,
            decreases bnd@.len() - ax,
        {
            let b: u32 = bnd[ax];
            if b as usize >= extents.len() || t.shape[ax] != extents[b as usize] {
                proof {
                    lemma_axis_stops(
                        t.shape@,
                        extents@,
                        bnd@,
                        k as int,
                        ax + 1,
                        bnd@.len() as int,
                    );
                }
                return Err(
                    BuildRefusal::Typing(
                        TypeViolation::ContractInputExtent {
                            input: k as u32,
                            axis: ax as u32,
                            extent: t.shape[ax],
                            index: b,
                        },
                    ),
                );
            }
            ax = ax + 1;
        }
        Ok(())
    }

    /// The `contract` box: a generalized Einstein summation. The output has the element type
    /// of the inputs, which is one, and the shape that `out_binding` gives.
    pub fn contract(
        &mut self,
        inputs: &[Wire],
        extents: &[u64],
        in_bindings: &[Vec<u32>],
        out_binding: &[u32],
    ) -> (r: Result<Wire, BuildRefusal>)
        ensures
            (final(self)@, outcome(r)) == old(self)@.contract(
                inputs@,
                extents@,
                types::views(in_bindings@),
                out_binding@,
            ),
            final(self).names() == old(self).names(),
            final(self).hints() == old(self).hints(),
    {
        let ghost b: BuilderModel = self@;
        let ghost bindings: Seq<Seq<u32>> = types::views(in_bindings@);
        if inputs.len() == 0 {
            return Err(BuildRefusal::ContractNoInputs);
        }
        if inputs.len() != in_bindings.len() {
            return Err(
                BuildRefusal::Typing(
                    TypeViolation::ContractArity {
                        inputs: inputs.len() as u32,
                        bindings: in_bindings.len() as u32,
                    },
                ),
            );
        }
        let dtype: Dtype = match self.peek(inputs[0]) {
            Ok(t) => t.dtype,
            Err(e) => {
                return Err(e);
            },
        };
        let mut k: usize = 0;
        while k < inputs.len()
            invariant
                self@ == b,
                b == old(self)@,
                self.names() == old(self).names(),
                self.hints() == old(self).hints(),
                inputs@.len() == in_bindings@.len(),
                inputs@.len() > 0,
                b.peek(inputs@[0]) matches Ok(t) && t.dtype == dtype,
                bindings == types::views(in_bindings@),
                k <= inputs@.len(),
                b.inputs_fault(dtype, inputs@, extents@, bindings, k as int) is None,
            decreases inputs@.len() - k,
        {
            assert(bindings[k as int] == in_bindings@[k as int]@);
            match self.check_input(dtype, inputs[k], extents, &in_bindings[k], k) {
                Err(e) => {
                    proof {
                        lemma_inputs_stop(
                            b,
                            dtype,
                            inputs@,
                            extents@,
                            bindings,
                            k + 1,
                            inputs@.len() as int,
                        );
                    }
                    return Err(e);
                },
                Ok(()) => {},
            }
            k = k + 1;
        }
        let mut out_shape: Vec<u64> = Vec::new();
        let mut ax: usize = 0;
        while ax < out_binding.len()
            invariant
                self@ == b,
                b == old(self)@,
                self.names() == old(self).names(),
                self.hints() == old(self).hints(),
                inputs@.len() == in_bindings@.len(),
                inputs@.len() > 0,
                b.peek(inputs@[0]) matches Ok(t) && t.dtype == dtype,
                bindings == types::views(in_bindings@),
                b.inputs_fault(dtype, inputs@, extents@, bindings, inputs@.len() as int) is None,
                ax <= out_binding@.len(),
                out_shape@.len() == ax,
                forall|i: int|
                    0 <= i < ax ==> #[trigger] out_shape@[i] == extents@[out_binding@[i] as int],
                BuilderModel::output_fault(extents@, out_binding@, ax as int) is None,
            decreases out_binding@.len() - ax,
        {
            let x: u32 = out_binding[ax];
            if x as usize >= extents.len() {
                proof {
                    lemma_output_stops(extents@, out_binding@, ax + 1, out_binding@.len() as int);
                }
                return Err(
                    BuildRefusal::Typing(
                        TypeViolation::ContractOutputExtent { axis: ax as u32, index: x },
                    ),
                );
            }
            out_shape.push(extents[x as usize]);
            ax = ax + 1;
        }
        assert(out_shape@ =~= BuilderModel::bound_shape(extents@, out_binding@));
        match self.consume_all(inputs) {
            Err(e) => {
                return Err(e);
            },
            Ok(()) => {},
        }
        let output: Wire = self.add_wire(TensorType::new(dtype, out_shape));
        self.emit(
            App::Contract {
                inputs: copy_wires(inputs),
                output,
                extents: copy_words(extents),
                in_bindings: copy_bindings(in_bindings),
                out_binding: copy_wires(out_binding),
            },
        );
        Ok(output)
    }

    /// The `cast` box: changes the element type at a fixed shape.
    pub fn cast(&mut self, inp: Wire, to: Dtype) -> (r: Result<Wire, BuildRefusal>)
        ensures
            (final(self)@, outcome(r)) == old(self)@.cast(inp, to),
            final(self).names() == old(self).names(),
            final(self).hints() == old(self).hints(),
    {
        let shape: Vec<u64> = match self.peek(inp) {
            Ok(t) => copy_words(t.shape.as_slice()),
            Err(e) => {
                return Err(e);
            },
        };
        match self.consume(inp) {
            Err(e) => {
                return Err(e);
            },
            Ok(()) => {},
        }
        let out: Wire = self.add_wire(TensorType::new(to, shape));
        self.emit(App::Cast { inp, out });
        Ok(out)
    }

    /// The `cell` box: region membership over a pooled complex. The input is a rational point
    /// of the ambient space; one boolean scalar is produced per cell, in cell order.
    pub fn cell(&mut self, complex_idx: u32, inp: Wire) -> (r: Result<Vec<Wire>, BuildRefusal>)
        ensures
            (final(self)@, wires_outcome(r)) == old(self)@.cell(complex_idx, inp),
            final(self).names() == old(self).names(),
            final(self).hints() == old(self).hints(),
    {
        if complex_idx as usize >= self.net.complexes.len() {
            return Err(
                BuildRefusal::ComplexIndexOutOfRange {
                    complex_idx,
                    pool_len: self.net.complexes.len() as u32,
                },
            );
        }
        let amb_dim: u32 = self.net.complexes[complex_idx as usize].amb_dim;
        let n_cells: usize = self.net.complexes[complex_idx as usize].cells.len();
        let ghost c: simplex::ComplexModel = self@.net.complexes[complex_idx as int];
        assert(c == self.net.complexes@[complex_idx as int]@);
        let t: &TensorType = match self.peek(inp) {
            Ok(t) => t,
            Err(e) => {
                return Err(e);
            },
        };
        let point: bool = t.shape.len() == 1 && t.shape[0] == amb_dim as u64;
        assert(point <==> t.shape@ == seq![amb_dim as u64]) by {
            if point {
                assert(t.shape@ =~= seq![amb_dim as u64]);
            }
        }
        if !point || t.dtype.kind != Kind::Rat {
            return Err(
                BuildRefusal::Typing(TypeViolation::CellInputType { amb_dim, got: t.clone() }),
            );
        }
        match self.consume(inp) {
            Err(e) => {
                return Err(e);
            },
            Ok(()) => {},
        }
        let none: Vec<u64> = Vec::new();
        let scalar: TensorType = TensorType::boolean(none);
        let outs: Vec<Wire> = self.add_wires(&scalar, n_cells);
        self.emit(App::Cell { complex_idx, inp, outs: copy_wires(outs.as_slice()) });
        Ok(outs)
    }

    /// The `reshape` box: the same entries under a new shape of the same size.
    pub fn reshape(&mut self, inp: Wire, new_shape: &[u64]) -> (r: Result<Wire, BuildRefusal>)
        ensures
            (final(self)@, outcome(r)) == old(self)@.reshape(inp, new_shape@),
            final(self).names() == old(self).names(),
            final(self).hints() == old(self).hints(),
    {
        let t: &TensorType = match self.peek(inp) {
            Ok(t) => t,
            Err(e) => {
                return Err(e);
            },
        };
        let dtype: Dtype = t.dtype;
        let from_size: u64 = t.size();
        let to_size: u64 = count_entries(new_shape);
        if from_size != to_size {
            return Err(BuildRefusal::Typing(TypeViolation::ReshapeSize { from_size, to_size }));
        }
        match self.consume(inp) {
            Err(e) => {
                return Err(e);
            },
            Ok(()) => {},
        }
        let out: Wire = self.add_wire(TensorType::new(dtype, copy_words(new_shape)));
        self.emit(App::Reshape { new_shape: copy_words(new_shape), inp, out });
        Ok(out)
    }

    /// The `broadcast` box: replicates along new or singleton axes, by the trailing axes.
    pub fn broadcast(&mut self, inp: Wire, to_shape: &[u64]) -> (r: Result<Wire, BuildRefusal>)
        ensures
            (final(self)@, outcome(r)) == old(self)@.broadcast_to(inp, to_shape@),
            final(self).names() == old(self).names(),
            final(self).hints() == old(self).hints(),
    {
        let t: &TensorType = match self.peek(inp) {
            Ok(t) => t,
            Err(e) => {
                return Err(e);
            },
        };
        let dtype: Dtype = t.dtype;
        if !broadcasts_to(t.shape.as_slice(), to_shape) {
            return Err(
                BuildRefusal::Typing(
                    TypeViolation::BroadcastShape {
                        from: copy_words(t.shape.as_slice()),
                        to: copy_words(to_shape),
                    },
                ),
            );
        }
        match self.consume(inp) {
            Err(e) => {
                return Err(e);
            },
            Ok(()) => {},
        }
        let out: Wire = self.add_wire(TensorType::new(dtype, copy_words(to_shape)));
        self.emit(App::Broadcast { to_shape: copy_words(to_shape), inp, out });
        Ok(out)
    }

    /// The `copy` box: explicit fan-out into `k` wires of the input's type.
    pub fn copy(&mut self, inp: Wire, k: u32) -> (r: Result<Vec<Wire>, BuildRefusal>)
        ensures
            (final(self)@, wires_outcome(r)) == old(self)@.copy(inp, k),
            final(self).names() == old(self).names(),
            final(self).hints() == old(self).hints(),
    {
        if k == 0 {
            return Err(BuildRefusal::CopyNoBranches);
        }
        let t: TensorType = match self.peek(inp) {
            Ok(t) => t.clone(),
            Err(e) => {
                return Err(e);
            },
        };
        match self.consume(inp) {
            Err(e) => {
                return Err(e);
            },
            Ok(()) => {},
        }
        let outs: Vec<Wire> = self.add_wires(&t, k as usize);
        self.emit(App::Copy { inp, outs: copy_wires(outs.as_slice()) });
        Ok(outs)
    }

    /// The `delete` box: explicit discard.
    pub fn delete(&mut self, inp: Wire) -> (r: Result<(), BuildRefusal>)
        ensures
            (final(self)@, outcome(r)) == old(self)@.delete(inp),
            final(self).names() == old(self).names(),
            final(self).hints() == old(self).hints(),
    {
        match self.peek(inp) {
            Ok(_) => {},
            Err(e) => {
                return Err(e);
            },
        }
        match self.consume(inp) {
            Err(e) => {
                return Err(e);
            },
            Ok(()) => {},
        }
        self.emit(App::Delete { inp });
        Ok(())
    }

    /// The `swap` box: exchanges two wires. The first produced wire has the type of the
    /// second consumed one, and the second that of the first.
    pub fn swap(&mut self, in1: Wire, in2: Wire) -> (r: Result<(Wire, Wire), BuildRefusal>)
        ensures
            (final(self)@, outcome(r)) == old(self)@.swap(in1, in2),
            final(self).names() == old(self).names(),
            final(self).hints() == old(self).hints(),
    {
        let t1: TensorType = match self.peek(in1) {
            Ok(t) => t.clone(),
            Err(e) => {
                return Err(e);
            },
        };
        let t2: TensorType = match self.peek(in2) {
            Ok(t) => t.clone(),
            Err(e) => {
                return Err(e);
            },
        };
        match self.consume(in1) {
            Err(e) => {
                return Err(e);
            },
            Ok(()) => {},
        }
        match self.consume(in2) {
            Err(e) => {
                return Err(e);
            },
            Ok(()) => {},
        }
        let out1: Wire = self.add_wire(t2);
        let out2: Wire = self.add_wire(t1);
        self.emit(App::Swap { in1, in2, out1, out2 });
        Ok((out1, out2))
    }

    /// The `stack` box: explicit fan-in of wires of one type, under a new leading axis.
    pub fn stack(&mut self, inputs: &[Wire]) -> (r: Result<Wire, BuildRefusal>)
        ensures
            (final(self)@, outcome(r)) == old(self)@.stack(inputs@),
            final(self).names() == old(self).names(),
            final(self).hints() == old(self).hints(),
    {
        let ghost b: BuilderModel = self@;
        if inputs.len() == 0 {
            return Err(BuildRefusal::StackNoInputs);
        }
        let t0: TensorType = match self.peek(inputs[0]) {
            Ok(t) => t.clone(),
            Err(e) => {
                return Err(e);
            },
        };
        let mut i: usize = 1;
        while i < inputs.len()
            invariant
                self@ == b,
                b == old(self)@,
                self.names() == old(self).names(),
                self.hints() == old(self).hints(),
                1 <= i <= inputs@.len(),
                b.peek(inputs@[0]) == Ok::<types::TypeModel, BuildFault>(t0@),
                b.stack_fault(t0@, inputs@, i as int) is None,
            decreases inputs@.len() - i,
        {
            match self.peek(inputs[i]) {
                Err(e) => {
                    proof {
                        lemma_stack_stops(b, t0@, inputs@, i + 1, inputs@.len() as int);
                    }
                    return Err(e);
                },
                Ok(t) => {
                    if *t != t0 {
                        proof {
                            lemma_stack_stops(b, t0@, inputs@, i + 1, inputs@.len() as int);
                        }
                        return Err(
                            BuildRefusal::Typing(
                                TypeViolation::StackInputType { wire: inputs[i] },
                            ),
                        );
                    }
                },
            }
            i = i + 1;
        }
        match self.consume_all(inputs) {
            Err(e) => {
                return Err(e);
            },
            Ok(()) => {},
        }
        let mut shape: Vec<u64> = vec![inputs.len() as u64];
        let mut tail: Vec<u64> = copy_words(t0.shape.as_slice());
        shape.append(&mut tail);
        assert(shape@ =~= seq![inputs@.len() as u64] + t0.shape@);
        let output: Wire = self.add_wire(TensorType::new(t0.dtype, shape));
        self.emit(App::Stack { inputs: copy_wires(inputs), output });
        Ok(output)
    }

    /// Closes the graph with its ordered outputs. An output that is unknown or consumed is
    /// refused; then the whole preflight runs.
    pub fn finish(self, graph_outputs: Vec<Wire>) -> (r: Result<Hypernet, BuildRefusal>)
        ensures
            match self@.finish(graph_outputs@) {
                Ok(net) => r matches Ok(h) && h@ == net,
                Err(e) => r matches Err(f) && f@ == e,
            },
            r matches Ok(h) ==> h.wire_names@.map_values(|s: String| s@) == self.names(),
            r matches Ok(h) ==> h.hints() == self.hints(),
    {
        let ghost b: BuilderModel = self@;
        let mut i: usize = 0;
        while i < graph_outputs.len()
            invariant
                self@ == b,
                i <= graph_outputs@.len(),
                b.outputs_fault(graph_outputs@, i as int) is None,
            decreases graph_outputs@.len() - i,
        {
            let w: Wire = graph_outputs[i];
            if w as usize >= self.net.wire_types.len() {
                proof {
                    lemma_outputs_stop(b, graph_outputs@, i + 1, graph_outputs@.len() as int);
                }
                return Err(BuildRefusal::UnknownWire { wire: w });
            }
            if let Some(by_app) = self.consumed.get(&w) {
                proof {
                    lemma_outputs_stop(b, graph_outputs@, i + 1, graph_outputs@.len() as int);
                }
                return Err(BuildRefusal::OutputConsumed { wire: w, by_app: *by_app });
            }
            i = i + 1;
        }
        let mut net: Hypernet = self.net;
        net.graph_outputs = graph_outputs;
        assert(net@ =~= (graph::NetModel { graph_outputs: graph_outputs@, ..b.net }));
        let violations: Vec<Violation> = net.preflight();
        assert(types::views(violations@).len() == violations@.len());
        if violations.len() > 0 {
            return Err(BuildRefusal::Preflight(violations));
        }
        Ok(net)
    }
}

/// A wire that cannot be consumed ends the consumption.
proof fn lemma_consume_stops(b: BuilderModel, ws: Seq<Wire>, k: int, n: int)
    requires
        k <= n,
        b.consume_first(ws, k).1 is Some,
    ensures
        b.consume_first(ws, n) == b.consume_first(ws, k),
    decreases n - k,
{
    if k < n {
        lemma_consume_stops(b, ws, k, n - 1);
    }
}

/// The first faulty axis stays the first.
proof fn lemma_axis_stops(
    shape: Seq<u64>,
    extents: Seq<u64>,
    bnd: Seq<u32>,
    k: int,
    i: int,
    n: int,
)
    requires
        i <= n,
        BuilderModel::axis_fault(shape, extents, bnd, k, i) is Some,
    ensures
        BuilderModel::axis_fault(shape, extents, bnd, k, n) == BuilderModel::axis_fault(
            shape,
            extents,
            bnd,
            k,
            i,
        ),
    decreases n - i,
{
    if i < n {
        lemma_axis_stops(shape, extents, bnd, k, i, n - 1);
    }
}

/// The first faulty input stays the first.
proof fn lemma_inputs_stop(
    b: BuilderModel,
    dtype: Dtype,
    inputs: Seq<Wire>,
    extents: Seq<u64>,
    in_bindings: Seq<Seq<u32>>,
    i: int,
    n: int,
)
    requires
        i <= n,
        b.inputs_fault(dtype, inputs, extents, in_bindings, i) is Some,
    ensures
        b.inputs_fault(dtype, inputs, extents, in_bindings, n) == b.inputs_fault(
            dtype,
            inputs,
            extents,
            in_bindings,
            i,
        ),
    decreases n - i,
{
    if i < n {
        lemma_inputs_stop(b, dtype, inputs, extents, in_bindings, i, n - 1);
    }
}

/// The first unbound output axis stays the first.
proof fn lemma_output_stops(extents: Seq<u64>, bnd: Seq<u32>, i: int, n: int)
    requires
        i <= n,
        BuilderModel::output_fault(extents, bnd, i) is Some,
    ensures
        BuilderModel::output_fault(extents, bnd, n) == BuilderModel::output_fault(extents, bnd, i),
    decreases n - i,
{
    if i < n {
        lemma_output_stops(extents, bnd, i, n - 1);
    }
}

/// The first differing input stays the first.
proof fn lemma_stack_stops(b: BuilderModel, t: types::TypeModel, inputs: Seq<Wire>, i: int, n: int)
    requires
        1 <= i <= n,
        b.stack_fault(t, inputs, i) is Some,
    ensures
        b.stack_fault(t, inputs, n) == b.stack_fault(t, inputs, i),
    decreases n - i,
{
    if i < n {
        lemma_stack_stops(b, t, inputs, i, n - 1);
    }
}

/// The first faulty output stays the first.
proof fn lemma_outputs_stop(b: BuilderModel, outs: Seq<Wire>, i: int, n: int)
    requires
        i <= n,
        b.outputs_fault(outs, i) is Some,
    ensures
        b.outputs_fault(outs, n) == b.outputs_fault(outs, i),
    decreases n - i,
{
    if i < n {
        lemma_outputs_stop(b, outs, i, n - 1);
    }
}

} // verus!
