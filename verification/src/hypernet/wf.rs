//! The well-formedness preflight: linearity, order of production, types, complexes.

use super::app;
use super::app::{App, ConstPayload, Wire};
use super::faults;
use super::graph;
use super::graph::Hypernet;
use super::simplex;
use super::simplex::SimpCViolation;
use super::types;
use super::types::{broadcasts_to, copy_words, same_words, Kind, TensorType};
use std::collections::{BTreeMap, BTreeSet};
use vstd::prelude::*;

verus! {

broadcast use {
    vstd::std_specs::btree::group_btree_axioms,
    vstd::laws_cmp::group_laws_cmp,
    vstd::laws_eq::group_laws_eq,
};

/// A typing violation of one box, with its geometry.
#[derive(Debug, Clone, PartialEq, Eq)]
pub enum TypeViolation {
    /// The payload does not have as many entries as the type.
    ConstPayloadSize {
        /// The size of the type.
        expected: u64,
        /// The number of entries.
        got: u64,
    },
    /// The payload does not fit the kind.
    ConstPayloadKind {
        /// The kind.
        kind: Kind,
        /// The payload is rational.
        rational_payload: bool,
    },
    /// Inputs and bindings differ in number.
    ContractArity {
        /// The number of inputs.
        inputs: u32,
        /// The number of bindings.
        bindings: u32,
    },
    /// An input's element type differs from the output's.
    ContractInputDtype {
        /// The input.
        input: u32,
    },
    /// An input has more or fewer axes than are bound.
    ContractInputRank {
        /// The input.
        input: u32,
        /// Its number of axes.
        rank: u32,
        /// The number of bound axes.
        bindings: u32,
    },
    /// An input axis does not have its index's extent.
    ContractInputExtent {
        /// The input.
        input: u32,
        /// The axis.
        axis: u32,
        /// Its extent.
        extent: u64,
        /// The index variable.
        index: u32,
    },
    /// The output has more or fewer axes than are bound.
    ContractOutputRank {
        /// Its number of axes.
        rank: u32,
        /// The number of bound axes.
        bindings: u32,
    },
    /// An output axis does not have its index's extent.
    ContractOutputExtent {
        /// The axis.
        axis: u32,
        /// The index variable.
        index: u32,
    },
    /// A cast changes the shape.
    CastShape,
    /// A cell's input is not a rational point of the ambient space.
    CellInputType {
        /// The ambient dimension.
        amb_dim: u32,
        /// The input's type.
        got: TensorType,
    },
    /// A cell has more or fewer outputs than its complex has cells.
    CellArity {
        /// The number of outputs.
        outs: u32,
        /// The number of cells.
        cells: u32,
    },
    /// A cell's output is not a boolean scalar.
    CellOutputNotBoolScalar {
        /// The output.
        wire: Wire,
    },
    /// A reshape changes the number of entries, or its output does not have the new shape.
    ReshapeSize {
        /// The number of entries before.
        from_size: u64,
        /// The number of entries after.
        to_size: u64,
    },
    /// A reshape changes the element type.
    ReshapeDtype,
    /// The input does not broadcast, or the output does not have the new shape.
    BroadcastShape {
        /// The input's shape.
        from: Vec<u64>,
        /// The new shape.
        to: Vec<u64>,
    },
    /// A copy changes the type.
    CopyOutputType {
        /// The output.
        wire: Wire,
    },
    /// A swap does not exchange the types.
    SwapType,
    /// The inputs of a stack differ in type.
    StackInputType {
        /// The input.
        wire: Wire,
    },
    /// The output of a stack does not have the stacked shape.
    StackOutputShape {
        /// The output's shape.
        got: Vec<u64>,
        /// The stacked shape.
        expected: Vec<u64>,
    },
    /// A stack changes the element type.
    StackDtype,
}

impl View for TypeViolation {
    type V = faults::TypeFault;

    open spec fn view(&self) -> faults::TypeFault {
        match *self {
            TypeViolation::ConstPayloadSize { expected, got } => {
                faults::TypeFault::ConstPayloadSize { expected, got }
            },
            TypeViolation::ConstPayloadKind { kind, rational_payload } => {
                faults::TypeFault::ConstPayloadKind { kind, rational_payload }
            },
            TypeViolation::ContractArity { inputs, bindings } => {
                faults::TypeFault::ContractArity { inputs, bindings }
            },
            TypeViolation::ContractInputDtype { input } => {
                faults::TypeFault::ContractInputDtype { input }
            },
            TypeViolation::ContractInputRank { input, rank, bindings } => {
                faults::TypeFault::ContractInputRank { input, rank, bindings }
            },
            TypeViolation::ContractInputExtent { input, axis, extent, index } => {
                faults::TypeFault::ContractInputExtent { input, axis, extent, index }
            },
            TypeViolation::ContractOutputRank { rank, bindings } => {
                faults::TypeFault::ContractOutputRank { rank, bindings }
            },
            TypeViolation::ContractOutputExtent { axis, index } => {
                faults::TypeFault::ContractOutputExtent { axis, index }
            },
            TypeViolation::CastShape => faults::TypeFault::CastShape,
            TypeViolation::CellInputType { amb_dim, got } => faults::TypeFault::CellInputType {
                amb_dim,
                got: got@,
            },
            TypeViolation::CellArity { outs, cells } => faults::TypeFault::CellArity {
                outs,
                cells,
            },
            TypeViolation::CellOutputNotBoolScalar { wire } => {
                faults::TypeFault::CellOutputNotBoolScalar { wire }
            },
            TypeViolation::ReshapeSize { from_size, to_size } => {
                faults::TypeFault::ReshapeSize { from_size, to_size }
            },
            TypeViolation::ReshapeDtype => faults::TypeFault::ReshapeDtype,
            TypeViolation::BroadcastShape { from, to } => faults::TypeFault::BroadcastShape {
                from: from@,
                to: to@,
            },
            TypeViolation::CopyOutputType { wire } => faults::TypeFault::CopyOutputType { wire },
            TypeViolation::SwapType => faults::TypeFault::SwapType,
            TypeViolation::StackInputType { wire } => faults::TypeFault::StackInputType { wire },
            TypeViolation::StackOutputShape { got, expected } => {
                faults::TypeFault::StackOutputShape { got: got@, expected: expected@ }
            },
            TypeViolation::StackDtype => faults::TypeFault::StackDtype,
        }
    }
}

/// A well-formedness violation, with its geometry. Applications are named by their place.
#[derive(Debug, Clone, PartialEq, Eq)]
pub enum Violation {
    /// A wire is consumed twice.
    WireConsumedTwice {
        /// The wire.
        wire: Wire,
        /// The last consumer before.
        first_app: u32,
        /// The second consumer.
        second_app: u32,
    },
    /// A wire is produced twice.
    WireProducedTwice {
        /// The wire.
        wire: Wire,
        /// The last producer before.
        first_app: u32,
        /// The second producer.
        second_app: u32,
    },
    /// A graph input is produced.
    GraphInputProduced {
        /// The wire.
        wire: Wire,
        /// The producer.
        app: u32,
    },
    /// A wire is read before it is produced.
    ReadBeforeProduction {
        /// The reader.
        app: u32,
        /// Its box.
        box_name: &'static str,
        /// The wire.
        wire: Wire,
    },
    /// A graph output is never produced.
    GraphOutputNeverProduced {
        /// The wire.
        wire: Wire,
    },
    /// A wire has no type.
    WireOutOfRange {
        /// The application.
        app: u32,
        /// The wire.
        wire: Wire,
        /// The length of the wire-type table.
        table_len: u32,
    },
    /// A complex does not exist.
    ComplexIndexOutOfRange {
        /// The application.
        app: u32,
        /// The complex.
        complex_idx: u32,
        /// The number of complexes.
        pool_len: u32,
    },
    /// A box is ill-typed.
    Typing {
        /// The application.
        app: u32,
        /// Its box.
        box_name: &'static str,
        /// What is wrong.
        violation: TypeViolation,
    },
    /// A pooled complex has a defect.
    Complex {
        /// The complex.
        complex_idx: u32,
        /// The defect.
        violation: SimpCViolation,
    },
}

impl View for Violation {
    type V = faults::Fault;

    open spec fn view(&self) -> faults::Fault {
        match *self {
            Violation::WireConsumedTwice { wire, first_app, second_app } => {
                faults::Fault::WireConsumedTwice { wire, first_app, second_app }
            },
            Violation::WireProducedTwice { wire, first_app, second_app } => {
                faults::Fault::WireProducedTwice { wire, first_app, second_app }
            },
            Violation::GraphInputProduced { wire, app } => faults::Fault::GraphInputProduced {
                wire,
                app,
            },
            Violation::ReadBeforeProduction { app, box_name, wire } => {
                faults::Fault::ReadBeforeProduction { app, box_name, wire }
            },
            Violation::GraphOutputNeverProduced { wire } => {
                faults::Fault::GraphOutputNeverProduced { wire }
            },
            Violation::WireOutOfRange { app, wire, table_len } => faults::Fault::WireOutOfRange {
                app,
                wire,
                table_len,
            },
            Violation::ComplexIndexOutOfRange { app, complex_idx, pool_len } => {
                faults::Fault::ComplexIndexOutOfRange { app, complex_idx, pool_len }
            },
            Violation::Typing { app, box_name, violation } => faults::Fault::Typing {
                app,
                box_name,
                violation: violation@,
            },
            Violation::Complex { complex_idx, violation } => faults::Fault::Complex {
                complex_idx,
                violation,
            },
        }
    }
}

/// Appends a violation where a condition holds.
fn note_type(v: &mut Vec<TypeViolation>, cond: bool, x: TypeViolation)
    ensures
        types::views(final(v)@) == types::views(old(v)@) + faults::when(cond, x@),
{
    let ghost start: Seq<faults::TypeFault> = types::views(v@);
    if cond {
        v.push(x);
    }
    assert(types::views(v@) =~= start + faults::when(cond, x@));
}

/// Appends a violation where a condition holds.
fn note(v: &mut Vec<Violation>, cond: bool, x: Violation)
    ensures
        types::views(final(v)@) == types::views(old(v)@) + faults::when(cond, x@),
{
    let ghost start: Seq<faults::Fault> = types::views(v@);
    if cond {
        v.push(x);
    }
    assert(types::views(v@) =~= start + faults::when(cond, x@));
}

impl Hypernet {
    /// The type of a wire that has one.
    fn typ(&self, w: Wire) -> (r: &TensorType)
        requires
            self@.knows(w),
        ensures
            r@ == self@.typ(w),
    {
        &self.wire_types[w as usize]
    }

    /// Appends which axes of an input of a contraction do not have their extents.
    fn check_input_axes(
        &self,
        shape: &Vec<u64>,
        extents: &Vec<u64>,
        bnd: &Vec<u32>,
        k: usize,
        v: &mut Vec<TypeViolation>,
    )
        requires
            shape@.len() == bnd@.len(),
        ensures
            types::views(final(v)@) == types::views(old(v)@) + simplex::flat(
                self@.input_axis_faults(shape@, extents@, bnd@, k as int),
                bnd@.len() as int,
            ),
    {
        let ghost start: Seq<faults::TypeFault> = types::views(v@);
        let ghost f = self@.input_axis_faults(shape@, extents@, bnd@, k as int);
        let mut ax: usize = 0;
        assert(types::views(v@) =~= start + simplex::flat(f, 0));
        while ax < bnd.len()
            invariant
                shape@.len() == bnd@.len(),
                ax <= bnd@.len(),
                f == self@.input_axis_faults(shape@, extents@, bnd@, k as int),
                types::views(v@) == start + simplex::flat(f, ax as int),
            decreases bnd@.len() - ax,
        {
            let b: u32 = bnd[ax];
            let bad: bool = b as usize >= extents.len() || shape[ax] != extents[b as usize];
            note_type(
                v,
                bad,
                TypeViolation::ContractInputExtent {
                    input: k as u32,
                    axis: ax as u32,
                    extent: shape[ax],
                    index: b,
                },
            );
            ax = ax + 1;
            assert(types::views(v@) =~= start + simplex::flat(f, ax as int));
        }
    }

    /// Appends what is wrong with the inputs of a contraction.
    fn check_inputs(
        &self,
        inputs: &Vec<Wire>,
        output: Wire,
        extents: &Vec<u64>,
        in_bindings: &Vec<Vec<u32>>,
        v: &mut Vec<TypeViolation>,
    )
        requires
            inputs@.len() == in_bindings@.len(),
            self@.knows(output),
            forall|i: int| 0 <= i < inputs@.len() ==> self@.knows(#[trigger] inputs@[i]),
        ensures
            types::views(final(v)@) == types::views(old(v)@) + simplex::flat(
                self@.input_faults(inputs@, output, extents@, types::views(in_bindings@)),
                inputs@.len() as int,
            ),
    {
        let ghost start: Seq<faults::TypeFault> = types::views(v@);
        let ghost f = self@.input_faults(inputs@, output, extents@, types::views(in_bindings@));
        let mut k: usize = 0;
        assert(types::views(v@) =~= start + simplex::flat(f, 0));
        while k < inputs.len()
            invariant
                inputs@.len() == in_bindings@.len(),
                self@.knows(output),
                forall|i: int| 0 <= i < inputs@.len() ==> self@.knows(#[trigger] inputs@[i]),
                k <= inputs@.len(),
                f == self@.input_faults(inputs@, output, extents@, types::views(in_bindings@)),
                types::views(v@) == start + simplex::flat(f, k as int),
            decreases inputs@.len() - k,
        {
            let t: &TensorType = self.typ(inputs[k]);
            let bnd: &Vec<u32> = &in_bindings[k];
            assert(types::views(in_bindings@)[k as int] == bnd@);
            note_type(
                v,
                t.dtype != self.typ(output).dtype,
                TypeViolation::ContractInputDtype { input: k as u32 },
            );
            if t.shape.len() != bnd.len() {
                note_type(
                    v,
                    true,
                    TypeViolation::ContractInputRank {
                        input: k as u32,
                        rank: t.shape.len() as u32,
                        bindings: bnd.len() as u32,
                    },
                );
            } else {
                self.check_input_axes(&t.shape, extents, bnd, k, v);
            }
            k = k + 1;
            assert(types::views(v@) =~= start + simplex::flat(f, k as int));
        }
    }

    /// Appends what is wrong with the output of a contraction.
    fn check_output(
        &self,
        output: Wire,
        extents: &Vec<u64>,
        bnd: &Vec<u32>,
        v: &mut Vec<TypeViolation>,
    )
        requires
            self@.knows(output),
        ensures
            types::views(final(v)@) == types::views(old(v)@) + self@.output_faults(
                output,
                extents@,
                bnd@,
            ),
    {
        let ghost start: Seq<faults::TypeFault> = types::views(v@);
        let shape: &Vec<u64> = &self.typ(output).shape;
        if shape.len() != bnd.len() {
            note_type(
                v,
                true,
                TypeViolation::ContractOutputRank {
                    rank: shape.len() as u32,
                    bindings: bnd.len() as u32,
                },
            );
            return ;
        }
        let ghost f = self@.output_axis_faults(shape@, extents@, bnd@);
        let mut ax: usize = 0;
        assert(types::views(v@) =~= start + simplex::flat(f, 0));
        while ax < bnd.len()
            invariant
                shape@.len() == bnd@.len(),
                ax <= bnd@.len(),
                f == self@.output_axis_faults(shape@, extents@, bnd@),
                types::views(v@) == start + simplex::flat(f, ax as int),
            decreases bnd@.len() - ax,
        {
            let b: u32 = bnd[ax];
            let bad: bool = b as usize >= extents.len() || shape[ax] != extents[b as usize];
            note_type(
                v,
                bad,
                TypeViolation::ContractOutputExtent { axis: ax as u32, index: b },
            );
            ax = ax + 1;
            assert(types::views(v@) =~= start + simplex::flat(f, ax as int));
        }
    }

    /// Appends what is wrong with a `cell` application.
    fn check_cell(&self, complex_idx: u32, inp: Wire, outs: &Vec<Wire>, v: &mut Vec<TypeViolation>)
        requires
            complex_idx < self@.complexes.len(),
            self@.knows(inp),
            forall|i: int| 0 <= i < outs@.len() ==> self@.knows(#[trigger] outs@[i]),
        ensures
            types::views(final(v)@) == types::views(old(v)@) + self@.type_faults(
                (app::AppModel::Cell { complex_idx, inp, outs: outs@ }),
            ),
    {
        let ghost start: Seq<faults::TypeFault> = types::views(v@);
        let c: &simplex::SimpC = &self.complexes[complex_idx as usize];
        assert(self@.complexes[complex_idx as int] == c@);
        let t: &TensorType = self.typ(inp);
        let point: bool = t.shape.len() == 1 && t.shape[0] == c.amb_dim as u64;
        assert(point <==> t.shape@ == seq![c.amb_dim as u64]) by {
            if point {
                assert(t.shape@ =~= seq![c.amb_dim as u64]);
            }
        }
        if !point || t.dtype.kind != Kind::Rat {
            note_type(
                v,
                true,
                TypeViolation::CellInputType { amb_dim: c.amb_dim, got: t.clone() },
            );
        }
        note_type(
            v,
            outs.len() != c.cells.len(),
            TypeViolation::CellArity { outs: outs.len() as u32, cells: c.cells.len() as u32 },
        );
        let ghost mid: Seq<faults::TypeFault> = types::views(v@);
        let ghost f = self@.cell_output_faults(outs@);
        let mut i: usize = 0;
        assert(types::views(v@) =~= mid + simplex::flat(f, 0));
        while i < outs.len()
            invariant
                forall|i: int| 0 <= i < outs@.len() ==> self@.knows(#[trigger] outs@[i]),
                i <= outs@.len(),
                f == self@.cell_output_faults(outs@),
                types::views(v@) == mid + simplex::flat(f, i as int),
            decreases outs@.len() - i,
        {
            let w: Wire = outs[i];
            let u: &TensorType = self.typ(w);
            let scalar: bool = u.dtype == types::Dtype::boolean() && u.shape.len() == 0;
            assert(scalar <==> u@ == (types::TypeModel {
                dtype: types::Dtype::boolean(),
                shape: Seq::empty(),
            })) by {
                if scalar {
                    assert(u.shape@ =~= Seq::empty());
                }
            }
            note_type(v, !scalar, TypeViolation::CellOutputNotBoolScalar { wire: w });
            i = i + 1;
            assert(types::views(v@) =~= mid + simplex::flat(f, i as int));
        }
        assert(types::views(v@) =~= start + self@.type_faults(
            (app::AppModel::Cell { complex_idx, inp, outs: outs@ }),
        ));
    }

    /// Appends what is wrong with a `stack` application.
    fn check_stack(&self, inputs: &Vec<Wire>, output: Wire, v: &mut Vec<TypeViolation>)
        requires
            self@.knows(output),
            forall|i: int| 0 <= i < inputs@.len() ==> self@.knows(#[trigger] inputs@[i]),
        ensures
            types::views(final(v)@) == types::views(old(v)@) + self@.type_faults(
                (app::AppModel::Stack { inputs: inputs@, output }),
            ),
    {
        let ghost start: Seq<faults::TypeFault> = types::views(v@);
        let u: &TensorType = self.typ(output);
        if inputs.len() == 0 {
            let expected: Vec<u64> = vec![0u64];
            assert(expected@ =~= seq![0u64]);
            note_type(
                v,
                true,
                TypeViolation::StackOutputShape { got: copy_words(u.shape.as_slice()), expected },
            );
            return ;
        }
        let t: &TensorType = self.typ(inputs[0]);
        let ghost f = self@.stack_faults(inputs@);
        let mut i: usize = 0;
        assert(types::views(v@) =~= start + simplex::flat(f, 0));
        while i < inputs.len()
            invariant
                forall|i: int| 0 <= i < inputs@.len() ==> self@.knows(#[trigger] inputs@[i]),
                inputs@.len() > 0,
                t@ == self@.typ(inputs@[0]),
                i <= inputs@.len(),
                f == self@.stack_faults(inputs@),
                types::views(v@) == start + simplex::flat(f, i as int),
            decreases inputs@.len() - i,
        {
            let w: Wire = inputs[i];
            let bad: bool = i > 0 && *self.typ(w) != *t;
            note_type(v, bad, TypeViolation::StackInputType { wire: w });
            i = i + 1;
            assert(types::views(v@) =~= start + simplex::flat(f, i as int));
        }
        let mut expected: Vec<u64> = vec![inputs.len() as u64];
        let mut tail: Vec<u64> = copy_words(t.shape.as_slice());
        expected.append(&mut tail);
        assert(expected@ =~= seq![inputs@.len() as u64] + t.shape@);
        if !same_words(u.shape.as_slice(), expected.as_slice()) {
            note_type(
                v,
                true,
                TypeViolation::StackOutputShape { got: copy_words(u.shape.as_slice()), expected },
            );
        }
        note_type(v, u.dtype != t.dtype, TypeViolation::StackDtype);
        assert(types::views(v@) =~= start + self@.type_faults(
            (app::AppModel::Stack { inputs: inputs@, output }),
        ));
    }

    /// What is wrong with the types of an application whose wires and complex exist.
    fn check_types(&self, a: &App) -> (r: Vec<TypeViolation>)
        requires
            forall|i: int| 0 <= i < a@.reads().len() ==> self@.knows(#[trigger] a@.reads()[i]),
            forall|i: int| 0 <= i < a@.writes().len() ==> self@.knows(#[trigger] a@.writes()[i]),
            a@ matches app::AppModel::Cell { complex_idx, .. } ==> complex_idx
                < self@.complexes.len(),
        ensures
            types::views(r@) == self@.type_faults(a@),
    {
        let mut v: Vec<TypeViolation> = Vec::new();
        match a {
            App::Const { out, value } => {
                assert(a@.writes()[0] == *out);
                let t: &TensorType = self.typ(*out);
                note_type(
                    &mut v,
                    value.len() as u64 != t.size(),
                    TypeViolation::ConstPayloadSize { expected: t.size(), got: value.len() as u64 },
                );
                let want_rat: bool = t.dtype.kind == Kind::Rat;
                let is_rat: bool = match value {
                    ConstPayload::Rat(_) => true,
                    _ => false,
                };
                note_type(
                    &mut v,
                    want_rat != is_rat,
                    TypeViolation::ConstPayloadKind {
                        kind: t.dtype.kind,
                        rational_payload: is_rat,
                    },
                );
            },
            App::Contract { inputs, output, extents, in_bindings, out_binding } => {
                assert(a@.writes()[0] == *output);
                assert(a@.reads() == inputs@);
                if inputs.len() != in_bindings.len() {
                    note_type(
                        &mut v,
                        true,
                        TypeViolation::ContractArity {
                            inputs: inputs.len() as u32,
                            bindings: in_bindings.len() as u32,
                        },
                    );
                } else {
                    self.check_inputs(inputs, *output, extents, in_bindings, &mut v);
                    self.check_output(*output, extents, out_binding, &mut v);
                }
            },
            App::Cast { inp, out } => {
                assert(a@.reads()[0] == *inp && a@.writes()[0] == *out);
                let same: bool = same_words(
                    self.typ(*inp).shape.as_slice(),
                    self.typ(*out).shape.as_slice(),
                );
                note_type(&mut v, !same, TypeViolation::CastShape);
            },
            App::Cell { complex_idx, inp, outs } => {
                assert(a@.reads()[0] == *inp);
                assert(a@.writes() == outs@);
                self.check_cell(*complex_idx, *inp, outs, &mut v);
            },
            App::Reshape { new_shape, inp, out } => {
                assert(a@.reads()[0] == *inp && a@.writes()[0] == *out);
                let t: &TensorType = self.typ(*inp);
                let u: &TensorType = self.typ(*out);
                let bad: bool = t.size() != u.size() || !same_words(
                    u.shape.as_slice(),
                    new_shape.as_slice(),
                );
                note_type(
                    &mut v,
                    bad,
                    TypeViolation::ReshapeSize { from_size: t.size(), to_size: u.size() },
                );
                note_type(&mut v, t.dtype != u.dtype, TypeViolation::ReshapeDtype);
            },
            App::Broadcast { to_shape, inp, out } => {
                assert(a@.reads()[0] == *inp && a@.writes()[0] == *out);
                let t: &TensorType = self.typ(*inp);
                let u: &TensorType = self.typ(*out);
                if !broadcasts_to(t.shape.as_slice(), to_shape.as_slice()) || !same_words(
                    u.shape.as_slice(),
                    to_shape.as_slice(),
                ) {
                    note_type(
                        &mut v,
                        true,
                        TypeViolation::BroadcastShape {
                            from: copy_words(t.shape.as_slice()),
                            to: copy_words(to_shape.as_slice()),
                        },
                    );
                }
            },
            App::Copy { inp, outs } => {
                assert(a@.reads()[0] == *inp);
                assert(a@.writes() == outs@);
                let ghost f = self@.copy_faults(*inp, outs@);
                let mut i: usize = 0;
                assert(types::views(v@) =~= simplex::flat(f, 0));
                while i < outs.len()
                    invariant
                        self@.knows(*inp),
                        forall|i: int| 0 <= i < outs@.len() ==> self@.knows(#[trigger] outs@[i]),
                        i <= outs@.len(),
                        f == self@.copy_faults(*inp, outs@),
                        types::views(v@) == simplex::flat(f, i as int),
                    decreases outs@.len() - i,
                {
                    let w: Wire = outs[i];
                    let bad: bool = *self.typ(w) != *self.typ(*inp);
                    note_type(&mut v, bad, TypeViolation::CopyOutputType { wire: w });
                    i = i + 1;
                    assert(types::views(v@) =~= simplex::flat(f, i as int));
                }
            },
            App::Delete { .. } => {},
            App::Swap { in1, in2, out1, out2 } => {
                assert(a@.reads()[0] == *in1 && a@.reads()[1] == *in2);
                assert(a@.writes()[0] == *out1 && a@.writes()[1] == *out2);
                let bad: bool = *self.typ(*out1) != *self.typ(*in2) || *self.typ(*out2)
                    != *self.typ(*in1);
                note_type(&mut v, bad, TypeViolation::SwapType);
            },
            App::Stack { inputs, output } => {
                assert(a@.writes()[0] == *output);
                assert(a@.reads() == inputs@);
                self.check_stack(inputs, *output, &mut v);
            },
        }
        assert(types::views(v@) =~= self@.type_faults(a@));
        v
    }

    /// Appends what is wrong with an application: wires without a type, or else a complex
    /// that does not exist, or else its types.
    fn check_app_types(&self, idx: u32, a: &App, fails: &mut Vec<Violation>)
        ensures
            types::views(final(fails)@) == types::views(old(fails)@) + self@.app_faults(idx, a@),
    {
        let ghost start: Seq<faults::Fault> = types::views(fails@);
        let mut wires: Vec<Wire> = a.input_wires();
        let mut outs: Vec<Wire> = a.output_wires();
        wires.append(&mut outs);
        let ghost all: Seq<Wire> = a@.reads() + a@.writes();
        assert(wires@ =~= all);
        let ghost f = self@.range_faults(idx, all);
        let mut in_range: bool = true;
        let mut k: usize = 0;
        assert(types::views(fails@) =~= start + simplex::flat(f, 0));
        while k < wires.len()
            invariant
                wires@ == all,
                k <= wires@.len(),
                f == self@.range_faults(idx, all),
                in_range <==> simplex::flat(f, k as int).len() == 0,
                in_range <==> (forall|i: int| 0 <= i < k ==> self@.knows(#[trigger] all[i])),
                types::views(fails@) == start + simplex::flat(f, k as int),
            decreases wires@.len() - k,
        {
            let w: Wire = wires[k];
            let bad: bool = self.wtype(w).is_none();
            note(
                fails,
                bad,
                Violation::WireOutOfRange {
                    app: idx,
                    wire: w,
                    table_len: self.wire_types.len() as u32,
                },
            );
            if bad {
                in_range = false;
                assert(!self@.knows(all[k as int]));
            }
            k = k + 1;
            assert(types::views(fails@) =~= start + simplex::flat(f, k as int));
        }
        if !in_range {
            return ;
        }
        assert forall|i: int| 0 <= i < a@.reads().len() implies self@.knows(
            #[trigger] a@.reads()[i],
        ) by {
            assert(all[i] == a@.reads()[i]);
        }
        assert forall|i: int| 0 <= i < a@.writes().len() implies self@.knows(
            #[trigger] a@.writes()[i],
        ) by {
            assert(all[a@.reads().len() + i] == a@.writes()[i]);
        }
        assert(types::views(fails@) =~= start);
        if let App::Cell { complex_idx, .. } = a {
            if *complex_idx as usize >= self.complexes.len() {
                note(
                    fails,
                    true,
                    Violation::ComplexIndexOutOfRange {
                        app: idx,
                        complex_idx: *complex_idx,
                        pool_len: self.complexes.len() as u32,
                    },
                );
                return ;
            }
        }
        let found: Vec<TypeViolation> = self.check_types(a);
        let ghost tf: Seq<faults::TypeFault> = self@.type_faults(a@);
        let ghost named: Seq<faults::Fault> = graph::NetModel::attributed(idx, a@.name(), tf);
        let mut i: usize = 0;
        assert(types::views(fails@) =~= start + named.subrange(0, 0));
        let n: usize = found.len();
        let mut rest: Vec<TypeViolation> = found;
        while rest.len() > 0
            invariant
                i + rest@.len() == n,
                n == tf.len(),
                i <= n,
                types::views(rest@) == tf.subrange(i as int, n as int),
                named == graph::NetModel::attributed(idx, a@.name(), tf),
                types::views(fails@) == start + named.subrange(0, i as int),
            decreases rest@.len(),
        {
            let ghost before: Seq<TypeViolation> = rest@;
            let x: TypeViolation = rest.remove(0);
            assert(types::views(before)[0] == tf[i as int]);
            assert(rest@ =~= before.subrange(1, before.len() as int));
            assert(types::views(rest@) =~= tf.subrange(i + 1, n as int)) by {
                assert forall|j: int| 0 <= j < rest@.len() implies types::views(rest@)[j]
                    == tf.subrange(i + 1, n as int)[j] by {
                    assert(types::views(before)[j + 1] == tf[i + j + 1]);
                }
            }
            note(fails, true, Violation::Typing { app: idx, box_name: a.name(), violation: x });
            i = i + 1;
            assert(types::views(fails@) =~= start + named.subrange(0, i as int));
        }
        assert(named.subrange(0, n as int) =~= named);
    }

    /// Appends which wires are used a second time, and which graph inputs are produced.
    fn check_linearity(&self, fails: &mut Vec<Violation>)
        ensures
            types::views(final(fails)@) == types::views(old(fails)@) + simplex::flat(
                self@.linearity_faults(),
                self@.apps.len() as int,
            ) + simplex::flat(self@.input_produced_faults(), self@.graph_inputs.len() as int),
    {
        let ghost net: graph::NetModel = self@;
        let ghost start: Seq<faults::Fault> = types::views(fails@);
        let ghost f = net.linearity_faults();
        let mut produced: BTreeMap<Wire, u32> = BTreeMap::new();
        let mut consumed: BTreeMap<Wire, u32> = BTreeMap::new();
        let mut n: usize = 0;
        assert(types::views(fails@) =~= start + simplex::flat(f, 0));
        while n < self.apps.len()
            invariant
                net == self@,
                n <= self.apps@.len(),
                f == net.linearity_faults(),
                consumed@ == faults::readers(net.apps, n as int),
                produced@ == faults::writers(net.apps, n as int),
                types::views(fails@) == start + simplex::flat(f, n as int),
            decreases self.apps@.len() - n,
        {
            let a: &App = &self.apps[n];
            assert(net.apps[n as int] == a@);
            let idx: u32 = n as u32;
            let ghost mid: Seq<faults::Fault> = types::views(fails@);
            let reads: Vec<Wire> = a.input_wires();
            note_uses(&mut consumed, &reads, idx, false, fails, Ghost(net.second_reads(n as int)));
            let writes: Vec<Wire> = a.output_wires();
            note_uses(&mut produced, &writes, idx, true, fails, Ghost(net.second_writes(n as int)));
            n = n + 1;
            assert(types::views(fails@) =~= start + simplex::flat(f, n as int));
        }
        let ghost mid: Seq<faults::Fault> = types::views(fails@);
        let ghost g = net.input_produced_faults();
        let mut i: usize = 0;
        assert(types::views(fails@) =~= mid + simplex::flat(g, 0));
        while i < self.graph_inputs.len()
            invariant
                net == self@,
                i <= self.graph_inputs@.len(),
                g == net.input_produced_faults(),
                produced@ == faults::writers(net.apps, net.apps.len() as int),
                types::views(fails@) == mid + simplex::flat(g, i as int),
            decreases self.graph_inputs@.len() - i,
        {
            let w: Wire = self.graph_inputs[i];
            if let Some(app) = produced.get(&w) {
                note(fails, true, Violation::GraphInputProduced { wire: w, app: *app });
            }
            i = i + 1;
            assert(types::views(fails@) =~= mid + simplex::flat(g, i as int));
        }
    }

    /// Appends which wires are read before they are produced, and which graph outputs never
    /// are.
    fn check_order(&self, fails: &mut Vec<Violation>)
        ensures
            types::views(final(fails)@) == types::views(old(fails)@) + simplex::flat(
                self@.order_faults(),
                self@.apps.len() as int,
            ) + simplex::flat(self@.output_missing_faults(), self@.graph_outputs.len() as int),
    {
        let ghost net: graph::NetModel = self@;
        let ghost start: Seq<faults::Fault> = types::views(fails@);
        let mut seen: BTreeSet<Wire> = BTreeSet::new();
        insert_all(&mut seen, &self.graph_inputs);
        let ghost f = net.order_faults();
        let mut n: usize = 0;
        assert(seen@ =~= faults::seen(net.graph_inputs, net.apps, 0));
        assert(types::views(fails@) =~= start + simplex::flat(f, 0));
        while n < self.apps.len()
            invariant
                net == self@,
                n <= self.apps@.len(),
                f == net.order_faults(),
                seen@ == faults::seen(net.graph_inputs, net.apps, n as int),
                types::views(fails@) == start + simplex::flat(f, n as int),
            decreases self.apps@.len() - n,
        {
            let a: &App = &self.apps[n];
            assert(net.apps[n as int] == a@);
            let ghost mid: Seq<faults::Fault> = types::views(fails@);
            let ghost g = net.early_reads(n as int);
            let reads: Vec<Wire> = a.input_wires();
            let mut k: usize = 0;
            assert(types::views(fails@) =~= mid + simplex::flat(g, 0));
            while k < reads.len()
                invariant
                    net.apps[n as int] == a@,
                    reads@ == a@.reads(),
                    k <= reads@.len(),
                    g == net.early_reads(n as int),
                    seen@ == faults::seen(net.graph_inputs, net.apps, n as int),
                    types::views(fails@) == mid + simplex::flat(g, k as int),
                decreases reads@.len() - k,
            {
                let w: Wire = reads[k];
                note(
                    fails,
                    !seen.contains(&w),
                    Violation::ReadBeforeProduction { app: n as u32, box_name: a.name(), wire: w },
                );
                k = k + 1;
                assert(types::views(fails@) =~= mid + simplex::flat(g, k as int));
            }
            let writes: Vec<Wire> = a.output_wires();
            insert_all(&mut seen, &writes);
            n = n + 1;
            assert(types::views(fails@) =~= start + simplex::flat(f, n as int));
        }
        let ghost mid: Seq<faults::Fault> = types::views(fails@);
        let ghost g = net.output_missing_faults();
        let mut i: usize = 0;
        assert(types::views(fails@) =~= mid + simplex::flat(g, 0));
        while i < self.graph_outputs.len()
            invariant
                net == self@,
                i <= self.graph_outputs@.len(),
                g == net.output_missing_faults(),
                seen@ == faults::seen(net.graph_inputs, net.apps, net.apps.len() as int),
                types::views(fails@) == mid + simplex::flat(g, i as int),
            decreases self.graph_outputs@.len() - i,
        {
            let w: Wire = self.graph_outputs[i];
            note(fails, !seen.contains(&w), Violation::GraphOutputNeverProduced { wire: w });
            i = i + 1;
            assert(types::views(fails@) =~= mid + simplex::flat(g, i as int));
        }
    }

    /// Appends the defects of the pooled complexes.
    fn check_pool(&self, fails: &mut Vec<Violation>)
        ensures
            types::views(final(fails)@) == types::views(old(fails)@) + simplex::flat(
                self@.pool_faults(),
                self@.complexes.len() as int,
            ),
    {
        let ghost net: graph::NetModel = self@;
        let ghost start: Seq<faults::Fault> = types::views(fails@);
        let ghost f = net.pool_faults();
        let mut ci: usize = 0;
        assert(types::views(fails@) =~= start + simplex::flat(f, 0));
        while ci < self.complexes.len()
            invariant
                net == self@,
                ci <= self.complexes@.len(),
                f == net.pool_faults(),
                types::views(fails@) == start + simplex::flat(f, ci as int),
            decreases self.complexes@.len() - ci,
        {
            let found: Vec<SimpCViolation> = self.complexes[ci].validate();
            assert(found@ == net.complexes[ci as int].violations());
            let ghost mid: Seq<faults::Fault> = types::views(fails@);
            let mut j: usize = 0;
            assert(types::views(fails@) =~= mid + f(ci as int).subrange(0, 0));
            while j < found.len()
                invariant
                    f == net.pool_faults(),
                    found@ == net.complexes[ci as int].violations(),
                    j <= found@.len(),
                    types::views(fails@) == mid + f(ci as int).subrange(0, j as int),
                decreases found@.len() - j,
            {
                note(
                    fails,
                    true,
                    Violation::Complex { complex_idx: ci as u32, violation: found[j] },
                );
                j = j + 1;
                assert(types::views(fails@) =~= mid + f(ci as int).subrange(0, j as int));
            }
            assert(f(ci as int).subrange(0, j as int) =~= f(ci as int));
            ci = ci + 1;
            assert(types::views(fails@) =~= start + simplex::flat(f, ci as int));
        }
    }

    /// The well-formedness preflight: every violation, in order; nothing where the graph is
    /// well formed.
    pub fn preflight(&self) -> (r: Vec<Violation>)
        ensures
            types::views(r@) == self@.faults(),
    {
        let ghost net: graph::NetModel = self@;
        let mut fails: Vec<Violation> = Vec::new();
        self.check_linearity(&mut fails);
        self.check_order(&mut fails);
        let ghost mid: Seq<faults::Fault> = types::views(fails@);
        let ghost f = net.typing_faults();
        let mut n: usize = 0;
        assert(types::views(fails@) =~= mid + simplex::flat(f, 0));
        while n < self.apps.len()
            invariant
                net == self@,
                n <= self.apps@.len(),
                f == net.typing_faults(),
                types::views(fails@) == mid + simplex::flat(f, n as int),
            decreases self.apps@.len() - n,
        {
            assert(net.apps[n as int] == self.apps@[n as int]@);
            self.check_app_types(n as u32, &self.apps[n], &mut fails);
            n = n + 1;
            assert(types::views(fails@) =~= mid + simplex::flat(f, n as int));
        }
        self.check_pool(&mut fails);
        assert(types::views(fails@) =~= net.faults());
        fails
    }
}

/// Inserts every wire of a list.
fn insert_all(s: &mut BTreeSet<Wire>, ws: &Vec<Wire>)
    ensures
        final(s)@ == old(s)@.union(ws@.to_set()),
{
    let ghost start: Set<Wire> = s@;
    let mut k: usize = 0;
    assert(s@ =~= start.union(ws@.subrange(0, 0).to_set()));
    while k < ws.len()
        invariant
            k <= ws@.len(),
            s@ == start.union(ws@.subrange(0, k as int).to_set()),
        decreases ws@.len() - k,
    {
        let ghost had: Seq<Wire> = ws@.subrange(0, k as int);
        let ghost next: Seq<Wire> = ws@.subrange(0, k + 1);
        s.insert(ws[k]);
        proof {
            assert(next =~= had.push(ws@[k as int]));
            assert(s@ =~= start.union(next.to_set())) by {
                assert forall|w: Wire| s@.contains(w) <==> start.union(next.to_set()).contains(
                    w,
                ) by {
                    if next.to_set().contains(w) {
                        let j: int = choose|j: int| 0 <= j < next.len() && next[j] == w;
                        if j < k {
                            assert(had[j] == w);
                        }
                    }
                    if had.to_set().contains(w) {
                        let j: int = choose|j: int| 0 <= j < had.len() && had[j] == w;
                        assert(next[j] == w);
                    }
                    assert(next[k as int] == ws@[k as int]);
                }
            }
        }
        k = k + 1;
    }
    assert(ws@.subrange(0, k as int) =~= ws@);
}

/// Counts the uses of the wires of one application, and appends which of them were used
/// before: productions where `writing`, else consumptions.
fn note_uses(
    m: &mut BTreeMap<Wire, u32>,
    ws: &Vec<Wire>,
    idx: u32,
    writing: bool,
    fails: &mut Vec<Violation>,
    Ghost(f): Ghost<spec_fn(int) -> Seq<faults::Fault>>,
)
    requires
        forall|k: int|
            0 <= k < ws@.len() ==> #[trigger] f(k) == {
                let had = faults::noted(old(m)@, ws@, idx, k);
                let w = ws@[k];
                faults::when(
                    had.contains_key(w),
                    if writing {
                        faults::Fault::WireProducedTwice {
                            wire: w,
                            first_app: had[w],
                            second_app: idx,
                        }
                    } else {
                        faults::Fault::WireConsumedTwice {
                            wire: w,
                            first_app: had[w],
                            second_app: idx,
                        }
                    },
                )
            },
    ensures
        final(m)@ == faults::noted(old(m)@, ws@, idx, ws@.len() as int),
        types::views(final(fails)@) == types::views(old(fails)@) + simplex::flat(
            f,
            ws@.len() as int,
        ),
{
    let ghost m0: Map<Wire, u32> = m@;
    let ghost start: Seq<faults::Fault> = types::views(fails@);
    let mut k: usize = 0;
    assert(types::views(fails@) =~= start + simplex::flat(f, 0));
    while k < ws.len()
        invariant
            m0 == old(m)@,
            k <= ws@.len(),
            forall|k: int|
                0 <= k < ws@.len() ==> #[trigger] f(k) == {
                    let had = faults::noted(m0, ws@, idx, k);
                    let w = ws@[k];
                    faults::when(
                        had.contains_key(w),
                        if writing {
                            faults::Fault::WireProducedTwice {
                                wire: w,
                                first_app: had[w],
                                second_app: idx,
                            }
                        } else {
                            faults::Fault::WireConsumedTwice {
                                wire: w,
                                first_app: had[w],
                                second_app: idx,
                            }
                        },
                    )
                },
            m@ == faults::noted(m0, ws@, idx, k as int),
            types::views(fails@) == start + simplex::flat(f, k as int),
        decreases ws@.len() - k,
    {
        let w: Wire = ws[k];
        if let Some(first) = m.get(&w) {
            let first_app: u32 = *first;
            let x: Violation = if writing {
                Violation::WireProducedTwice { wire: w, first_app, second_app: idx }
            } else {
                Violation::WireConsumedTwice { wire: w, first_app, second_app: idx }
            };
            note(fails, true, x);
        }
        assert(types::views(fails@) =~= start + (simplex::flat(f, k as int) + f(k as int)));
        m.insert(w, idx);
        k = k + 1;
        assert(types::views(fails@) =~= start + simplex::flat(f, k as int));
    }
}

} // verus!
