//! The ten primitive boxes, in the order of their tags in the wire format.

use super::scalar;
use super::scalar::WitRat;
use super::types;
use super::types::{copy_words, same_items, same_words};
use vstd::prelude::*;
use vstd::slice::slice_subrange;

verus! {

/// A wire identifier: an index into the wire-type table.
pub type Wire = u32;

/// A literal payload, as the contracts speak of it.
#[verifier::ext_equal]
pub enum PayloadModel {
    /// Exact rationals.
    Rat(Seq<scalar::Ratio>),
    /// Bits.
    Bits(Seq<bool>),
}

/// The literal payload of a `const` box.
#[derive(Debug)]
pub enum ConstPayload {
    /// Exact-rational entries in row-major order, for the kind `Rat`.
    Rat(Vec<WitRat>),
    /// Bits in row-major order, for every other kind.
    Bits(Vec<bool>),
}

impl View for ConstPayload {
    type V = PayloadModel;

    open spec fn view(&self) -> PayloadModel {
        match self {
            ConstPayload::Rat(v) => PayloadModel::Rat(types::views(v@)),
            ConstPayload::Bits(v) => PayloadModel::Bits(v@),
        }
    }
}

impl PayloadModel {
    /// The number of entries.
    pub open spec fn len(self) -> nat {
        match self {
            PayloadModel::Rat(v) => v.len(),
            PayloadModel::Bits(v) => v.len(),
        }
    }
}

/// A copy of a list of rationals.
pub fn copy_rationals(a: &[WitRat]) -> (r: Vec<WitRat>)
    ensures
        types::views(r@) == types::views(a@),
{
    let mut r: Vec<WitRat> = Vec::new();
    let mut i: usize = 0;
    while i < a.len()
        invariant
            i <= a@.len(),
            r@.len() == i,
            forall|j: int| 0 <= j < i ==> (#[trigger] r@[j])@ == a@[j]@,
        decreases a@.len() - i,
    {
        r.push(a[i].clone());
        i = i + 1;
    }
    assert(types::views(r@) =~= types::views(a@));
    r
}

/// A copy of a list of bits.
fn copy_bits(a: &[bool]) -> (r: Vec<bool>)
    ensures
        r@ == a@,
{
    let mut r: Vec<bool> = Vec::new();
    let mut i: usize = 0;
    while i < a.len()
        invariant
            i <= a@.len(),
            r@ == a@.subrange(0, i as int),
        decreases a@.len() - i,
    {
        r.push(a[i]);
        i = i + 1;
        assert(r@ =~= a@.subrange(0, i as int));
    }
    assert(r@ =~= a@);
    r
}

/// A copy of a list of wires or indices.
pub fn copy_wires(a: &[u32]) -> (r: Vec<u32>)
    ensures
        r@ == a@,
{
    let mut r: Vec<u32> = Vec::new();
    let mut i: usize = 0;
    while i < a.len()
        invariant
            i <= a@.len(),
            r@ == a@.subrange(0, i as int),
        decreases a@.len() - i,
    {
        r.push(a[i]);
        i = i + 1;
        assert(r@ =~= a@.subrange(0, i as int));
    }
    assert(r@ =~= a@);
    r
}

/// A copy of the bindings of a contraction.
pub fn copy_bindings(a: &[Vec<u32>]) -> (r: Vec<Vec<u32>>)
    ensures
        types::views(r@) == types::views(a@),
{
    let mut r: Vec<Vec<u32>> = Vec::new();
    let mut i: usize = 0;
    while i < a.len()
        invariant
            i <= a@.len(),
            r@.len() == i,
            forall|j: int| 0 <= j < i ==> (#[trigger] r@[j])@ == a@[j]@,
        decreases a@.len() - i,
    {
        r.push(copy_wires(a[i].as_slice()));
        i = i + 1;
    }
    assert(types::views(r@) =~= types::views(a@));
    r
}

impl Clone for ConstPayload {
    fn clone(&self) -> (r: Self)
        ensures
            r@ == self@,
    {
        match self {
            ConstPayload::Rat(v) => ConstPayload::Rat(copy_rationals(v.as_slice())),
            ConstPayload::Bits(v) => ConstPayload::Bits(copy_bits(v.as_slice())),
        }
    }
}

/// Whether two lists of rationals are the same.
pub fn same_rationals(a: &[WitRat], b: &[WitRat]) -> (r: bool)
    ensures
        r == (types::views(a@) == types::views(b@)),
{
    let r: bool = same_items(a, b);
    proof {
        if r {
            assert(types::views(a@) =~= types::views(b@));
        } else if types::views(a@) == types::views(b@) {
            assert(types::views(a@).len() == types::views(b@).len());
            assert forall|i: int| 0 <= i < a@.len() implies (#[trigger] a@[i])@ == b@[i]@ by {
                assert(types::views(a@)[i] == types::views(b@)[i]);
            }
        }
    }
    r
}

/// Whether two lists of wires are the same.
pub fn same_wires(a: &[u32], b: &[u32]) -> (r: bool)
    ensures
        r == (a@ == b@),
{
    let r: bool = same_items(a, b);
    assert(r ==> a@ =~= b@);
    r
}

/// Whether two lists of bindings are the same.
pub fn same_bindings(a: &[Vec<u32>], b: &[Vec<u32>]) -> (r: bool)
    ensures
        r == (types::views(a@) == types::views(b@)),
{
    if a.len() != b.len() {
        assert(types::views(a@).len() != types::views(b@).len());
        return false;
    }
    let mut i: usize = 0;
    while i < a.len()
        invariant
            a@.len() == b@.len(),
            i <= a@.len(),
            forall|j: int| 0 <= j < i ==> (#[trigger] a@[j])@ == b@[j]@,
        decreases a@.len() - i,
    {
        if !same_wires(a[i].as_slice(), b[i].as_slice()) {
            assert(types::views(a@)[i as int] != types::views(b@)[i as int]);
            return false;
        }
        i = i + 1;
    }
    assert(types::views(a@) =~= types::views(b@));
    true
}

impl PartialEq for ConstPayload {
    fn eq(&self, other: &ConstPayload) -> (r: bool) {
        match (self, other) {
            (ConstPayload::Rat(a), ConstPayload::Rat(b)) => same_rationals(
                a.as_slice(),
                b.as_slice(),
            ),
            (ConstPayload::Bits(a), ConstPayload::Bits(b)) => {
                let r: bool = same_items(a.as_slice(), b.as_slice());
                assert(r ==> a@ =~= b@);
                r
            },
            _ => false,
        }
    }
}

impl vstd::std_specs::cmp::PartialEqSpecImpl for ConstPayload {
    open spec fn obeys_eq_spec() -> bool {
        true
    }

    open spec fn eq_spec(&self, other: &ConstPayload) -> bool {
        self@ == other@
    }
}

impl Eq for ConstPayload {

}

impl ConstPayload {
    /// The number of entries.
    pub fn len(&self) -> (n: usize)
        ensures
            n == self@.len(),
    {
        match self {
            ConstPayload::Rat(v) => v.len(),
            ConstPayload::Bits(v) => v.len(),
        }
    }

    /// Whether there are no entries.
    pub fn is_empty(&self) -> (r: bool)
        ensures
            r == (self@.len() == 0),
    {
        self.len() == 0
    }
}

/// An application of a primitive box, as the contracts speak of it.
#[verifier::ext_equal]
pub enum AppModel {
    /// Emits a literal tensor.
    Const { out: Wire, value: PayloadModel },
    /// A generalized Einstein summation.
    Contract {
        inputs: Seq<Wire>,
        output: Wire,
        extents: Seq<u64>,
        in_bindings: Seq<Seq<u32>>,
        out_binding: Seq<u32>,
    },
    /// Changes the element type.
    Cast { inp: Wire, out: Wire },
    /// Region membership over a pooled complex.
    Cell { complex_idx: u32, inp: Wire, outs: Seq<Wire> },
    /// The same entries under a new shape.
    Reshape { new_shape: Seq<u64>, inp: Wire, out: Wire },
    /// Replicates along new or singleton axes.
    Broadcast { to_shape: Seq<u64>, inp: Wire, out: Wire },
    /// Explicit fan-out.
    Copy { inp: Wire, outs: Seq<Wire> },
    /// Explicit discard.
    Delete { inp: Wire },
    /// Exchanges two wires.
    Swap { in1: Wire, in2: Wire, out1: Wire, out2: Wire },
    /// Explicit fan-in.
    Stack { inputs: Seq<Wire>, output: Wire },
}

/// An application of a primitive box: one row of the graph.
#[derive(Debug)]
pub enum App {
    /// Emits a literal tensor.
    Const {
        /// The produced wire.
        out: Wire,
        /// The entries.
        value: ConstPayload,
    },
    /// A generalized Einstein summation with explicit index bindings.
    Contract {
        /// The consumed wires.
        inputs: Vec<Wire>,
        /// The produced wire.
        output: Wire,
        /// The extent of each index variable.
        extents: Vec<u64>,
        /// Per input: the index variable of each axis.
        in_bindings: Vec<Vec<u32>>,
        /// The index variable of each axis of the output.
        out_binding: Vec<u32>,
    },
    /// Changes the element type at a fixed shape.
    Cast {
        /// The consumed wire.
        inp: Wire,
        /// The produced wire.
        out: Wire,
    },
    /// Region membership over a pooled complex, one boolean scalar per cell.
    Cell {
        /// The complex.
        complex_idx: u32,
        /// The consumed wire.
        inp: Wire,
        /// The produced wires, in cell order.
        outs: Vec<Wire>,
    },
    /// The same entries under a new shape.
    Reshape {
        /// The new shape.
        new_shape: Vec<u64>,
        /// The consumed wire.
        inp: Wire,
        /// The produced wire.
        out: Wire,
    },
    /// Replicates along new or singleton axes.
    Broadcast {
        /// The new shape.
        to_shape: Vec<u64>,
        /// The consumed wire.
        inp: Wire,
        /// The produced wire.
        out: Wire,
    },
    /// Explicit fan-out.
    Copy {
        /// The consumed wire.
        inp: Wire,
        /// The produced wires.
        outs: Vec<Wire>,
    },
    /// Explicit discard.
    Delete {
        /// The consumed wire.
        inp: Wire,
    },
    /// Exchanges two wires.
    Swap {
        /// The first consumed wire.
        in1: Wire,
        /// The second consumed wire.
        in2: Wire,
        /// The first produced wire.
        out1: Wire,
        /// The second produced wire.
        out2: Wire,
    },
    /// Explicit fan-in: wires of one type under a new leading axis.
    Stack {
        /// The consumed wires.
        inputs: Vec<Wire>,
        /// The produced wire.
        output: Wire,
    },
}

impl View for App {
    type V = AppModel;

    open spec fn view(&self) -> AppModel {
        match self {
            App::Const { out, value } => AppModel::Const { out: *out, value: value@ },
            App::Contract { inputs, output, extents, in_bindings, out_binding } => AppModel::Contract {
                inputs: inputs@,
                output: *output,
                extents: extents@,
                in_bindings: types::views(in_bindings@),
                out_binding: out_binding@,
            },
            App::Cast { inp, out } => AppModel::Cast { inp: *inp, out: *out },
            App::Cell { complex_idx, inp, outs } => AppModel::Cell {
                complex_idx: *complex_idx,
                inp: *inp,
                outs: outs@,
            },
            App::Reshape { new_shape, inp, out } => AppModel::Reshape {
                new_shape: new_shape@,
                inp: *inp,
                out: *out,
            },
            App::Broadcast { to_shape, inp, out } => AppModel::Broadcast {
                to_shape: to_shape@,
                inp: *inp,
                out: *out,
            },
            App::Copy { inp, outs } => AppModel::Copy { inp: *inp, outs: outs@ },
            App::Delete { inp } => AppModel::Delete { inp: *inp },
            App::Swap { in1, in2, out1, out2 } => AppModel::Swap {
                in1: *in1,
                in2: *in2,
                out1: *out1,
                out2: *out2,
            },
            App::Stack { inputs, output } => AppModel::Stack { inputs: inputs@, output: *output },
        }
    }
}

/// A model has the fields of its application, each under its own name.
pub proof fn law_model_has_the_fields(a: App)
    ensures
        match (a, a@) {
            (App::Const { out, value }, AppModel::Const { out: o, value: v }) => o == out
                && match (value, v) {
                (ConstPayload::Rat(qs), PayloadModel::Rat(rs)) => rs.len() == qs@.len() && forall|
                    i: int,
                |
                    0 <= i < qs@.len() ==> (#[trigger] rs[i]).num == qs@[i].0@ && rs[i].den
                        == qs@[i].1@,
                (ConstPayload::Bits(xs), PayloadModel::Bits(ys)) => ys == xs@,
                _ => false,
            },
            (
                App::Contract { inputs, output, extents, in_bindings, out_binding },
                AppModel::Contract { inputs: i, output: o, extents: e, in_bindings: ib, out_binding: ob },
            ) => {
                &&& i == inputs@
                &&& o == output
                &&& e == extents@
                &&& ib.len() == in_bindings@.len()
                &&& forall|k: int| 0 <= k < ib.len() ==> #[trigger] ib[k] == in_bindings@[k]@
                &&& ob == out_binding@
            },
            (App::Cast { inp, out }, AppModel::Cast { inp: i, out: o }) => i == inp && o == out,
            (
                App::Cell { complex_idx, inp, outs },
                AppModel::Cell { complex_idx: c, inp: i, outs: o },
            ) => c == complex_idx && i == inp && o == outs@,
            (
                App::Reshape { new_shape, inp, out },
                AppModel::Reshape { new_shape: s, inp: i, out: o },
            ) => s == new_shape@ && i == inp && o == out,
            (
                App::Broadcast { to_shape, inp, out },
                AppModel::Broadcast { to_shape: s, inp: i, out: o },
            ) => s == to_shape@ && i == inp && o == out,
            (App::Copy { inp, outs }, AppModel::Copy { inp: i, outs: o }) => i == inp && o == outs@,
            (App::Delete { inp }, AppModel::Delete { inp: i }) => i == inp,
            (
                App::Swap { in1, in2, out1, out2 },
                AppModel::Swap { in1: a1, in2: a2, out1: b1, out2: b2 },
            ) => a1 == in1 && a2 == in2 && b1 == out1 && b2 == out2,
            (App::Stack { inputs, output }, AppModel::Stack { inputs: i, output: o }) => i
                == inputs@ && o == output,
            _ => false,
        },
{
}

impl AppModel {
    /// The tag of the wire format.
    pub open spec fn tag(self) -> u8 {
        match self {
            AppModel::Const { .. } => 0,
            AppModel::Contract { .. } => 1,
            AppModel::Cast { .. } => 2,
            AppModel::Cell { .. } => 3,
            AppModel::Reshape { .. } => 4,
            AppModel::Broadcast { .. } => 5,
            AppModel::Copy { .. } => 6,
            AppModel::Delete { .. } => 7,
            AppModel::Swap { .. } => 8,
            AppModel::Stack { .. } => 9,
        }
    }

    /// The name of the box.
    pub open spec fn name(self) -> &'static str {
        match self {
            AppModel::Const { .. } => "const",
            AppModel::Contract { .. } => "contract",
            AppModel::Cast { .. } => "cast",
            AppModel::Cell { .. } => "cell",
            AppModel::Reshape { .. } => "reshape",
            AppModel::Broadcast { .. } => "broadcast",
            AppModel::Copy { .. } => "copy",
            AppModel::Delete { .. } => "delete",
            AppModel::Swap { .. } => "swap",
            AppModel::Stack { .. } => "stack",
        }
    }

    /// The consumed wires, in order.
    pub open spec fn reads(self) -> Seq<Wire> {
        match self {
            AppModel::Const { .. } => Seq::empty(),
            AppModel::Contract { inputs, .. } => inputs,
            AppModel::Cast { inp, .. } => seq![inp],
            AppModel::Cell { inp, .. } => seq![inp],
            AppModel::Reshape { inp, .. } => seq![inp],
            AppModel::Broadcast { inp, .. } => seq![inp],
            AppModel::Copy { inp, .. } => seq![inp],
            AppModel::Delete { inp } => seq![inp],
            AppModel::Swap { in1, in2, .. } => seq![in1, in2],
            AppModel::Stack { inputs, .. } => inputs,
        }
    }

    /// The produced wires, in order.
    pub open spec fn writes(self) -> Seq<Wire> {
        match self {
            AppModel::Const { out, .. } => seq![out],
            AppModel::Contract { output, .. } => seq![output],
            AppModel::Cast { out, .. } => seq![out],
            AppModel::Cell { outs, .. } => outs,
            AppModel::Reshape { out, .. } => seq![out],
            AppModel::Broadcast { out, .. } => seq![out],
            AppModel::Copy { outs, .. } => outs,
            AppModel::Delete { .. } => Seq::empty(),
            AppModel::Swap { out1, out2, .. } => seq![out1, out2],
            AppModel::Stack { output, .. } => seq![output],
        }
    }

    /// The same box with the same payload, apart from its wires and its complex.
    pub open spec fn same_shape(self, other: AppModel) -> bool {
        match (self, other) {
            (AppModel::Const { value: a, .. }, AppModel::Const { value: b, .. }) => a == b,
            (
                AppModel::Contract { extents: e, in_bindings: i, out_binding: o, .. },
                AppModel::Contract { extents: f, in_bindings: j, out_binding: p, .. },
            ) => e == f && i == j && o == p,
            (AppModel::Cast { .. }, AppModel::Cast { .. }) => true,
            (AppModel::Cell { .. }, AppModel::Cell { .. }) => true,
            (
                AppModel::Reshape { new_shape: a, .. },
                AppModel::Reshape { new_shape: b, .. },
            ) => a == b,
            (
                AppModel::Broadcast { to_shape: a, .. },
                AppModel::Broadcast { to_shape: b, .. },
            ) => a == b,
            (AppModel::Copy { .. }, AppModel::Copy { .. }) => true,
            (AppModel::Delete { .. }, AppModel::Delete { .. }) => true,
            (AppModel::Swap { .. }, AppModel::Swap { .. }) => true,
            (AppModel::Stack { .. }, AppModel::Stack { .. }) => true,
            _ => false,
        }
    }
}

/// `ys` holds what `f` answers on the wires of `xs`, in order.
pub open spec fn mapped<F: Fn(u32) -> u32>(f: F, xs: Seq<u32>, ys: Seq<u32>) -> bool {
    &&& xs.len() == ys.len()
    &&& forall|i: int| 0 <= i < xs.len() ==> call_ensures(f, (xs[i],), #[trigger] ys[i])
}

/// The wires that `f` answers on a list of wires.
fn map_wires<F: Fn(u32) -> u32>(f: &F, xs: &[u32]) -> (ys: Vec<u32>)
    requires
        forall|i: int| 0 <= i < xs@.len() ==> call_requires(*f, (#[trigger] xs@[i],)),
    ensures
        mapped(*f, xs@, ys@),
{
    let mut ys: Vec<u32> = Vec::new();
    let mut i: usize = 0;
    while i < xs.len()
        invariant
            forall|i: int| 0 <= i < xs@.len() ==> call_requires(*f, (#[trigger] xs@[i],)),
            i <= xs@.len(),
            ys@.len() == i,
            forall|j: int| 0 <= j < i ==> call_ensures(*f, (xs@[j],), #[trigger] ys@[j]),
        decreases xs@.len() - i,
    {
        ys.push(f(xs[i]));
        i = i + 1;
    }
    ys
}

/// A map with state answers `ys` on `xs`, in order: `fs` holds its states, from `before` to
/// `after`, and answer `i` is one that state `i` gives on item `i`.
pub open spec fn answered<F: FnMut(u32) -> u32>(
    before: F,
    after: F,
    fs: Seq<F>,
    xs: Seq<u32>,
    ys: Seq<u32>,
) -> bool {
    &&& xs.len() == ys.len()
    &&& fs.len() == xs.len() + 1
    &&& fs[0] == before
    &&& fs[xs.len() as int] == after
    &&& forall|i: int| 0 <= i < xs.len() ==> call_ensures(fs[i], (xs[i],), #[trigger] ys[i])
}

/// Asks `f` each of `xs`, in order.
fn ask_each<F: FnMut(u32) -> u32>(f: &mut F, xs: &[u32]) -> (ys: Vec<u32>)
    requires
        forall|i: int| 0 <= i < xs@.len() ==> call_requires(*old(f), (#[trigger] xs@[i],)),
    ensures
        exists|fs: Seq<F>| answered(*old(f), *final(f), fs, xs@, ys@),
{
    let mut ys: Vec<u32> = Vec::new();
    let ghost mut fs: Seq<F> = seq![*f];
    let mut i: usize = 0;
    while i < xs.len()
        invariant
            forall|k: int| i <= k < xs@.len() ==> call_requires(*f, (#[trigger] xs@[k],)),
            i <= xs@.len(),
            answered(*old(f), *f, fs, xs@.take(i as int), ys@),
        decreases xs@.len() - i,
    {
        let ghost prev: F = *f;
        let ghost ys1: Seq<u32> = ys@;
        let y: u32 = f(xs[i]);
        ys.push(y);
        proof {
            let x1: Seq<u32> = xs@.take(i as int);
            let x2: Seq<u32> = xs@.take(i + 1);
            let fs2: Seq<F> = fs.push(*f);
            assert forall|k: int| 0 <= k < x2.len() implies call_ensures(
                fs2[k],
                (x2[k],),
                #[trigger] ys@[k],
            ) by {
                if k < i {
                    assert(call_ensures(fs[k], (x1[k],), ys1[k]));
                } else {
                    assert(call_ensures(prev, (xs@[i as int],), y));
                }
            }
            fs = fs2;
        }
        i = i + 1;
    }
    assert(xs@.take(i as int) =~= xs@);
    ys
}

impl Clone for App {
    fn clone(&self) -> (r: App)
        ensures
            r@ == self@,
    {
        let complex: u32 = match self {
            App::Cell { complex_idx, .. } => *complex_idx,
            _ => 0,
        };
        let r: App = self.rewired(self.input_wires(), self.output_wires(), complex);
        proof {
            let (a, b): (AppModel, AppModel) = (self@, r@);
            assert(a.reads().len() > 0 ==> a.reads()[0] == b.reads()[0]);
            assert(a.reads().len() > 1 ==> a.reads()[1] == b.reads()[1]);
            assert(a.writes().len() > 0 ==> a.writes()[0] == b.writes()[0]);
            assert(a.writes().len() > 1 ==> a.writes()[1] == b.writes()[1]);
        }
        r
    }
}

impl PartialEq for App {
    fn eq(&self, other: &App) -> (r: bool) {
        match (self, other) {
            (App::Const { out: o, value: v }, App::Const { out: p, value: w }) => *o == *p && *v
                == *w,
            (
                App::Contract {
                    inputs: i,
                    output: o,
                    extents: e,
                    in_bindings: ib,
                    out_binding: ob,
                },
                App::Contract {
                    inputs: j,
                    output: p,
                    extents: f,
                    in_bindings: jb,
                    out_binding: pb,
                },
            ) => same_wires(i.as_slice(), j.as_slice()) && *o == *p && same_words(
                e.as_slice(),
                f.as_slice(),
            ) && same_bindings(ib.as_slice(), jb.as_slice()) && same_wires(
                ob.as_slice(),
                pb.as_slice(),
            ),
            (App::Cast { inp: i, out: o }, App::Cast { inp: j, out: p }) => *i == *j && *o == *p,
            (
                App::Cell { complex_idx: c, inp: i, outs: o },
                App::Cell { complex_idx: d, inp: j, outs: p },
            ) => *c == *d && *i == *j && same_wires(o.as_slice(), p.as_slice()),
            (
                App::Reshape { new_shape: s, inp: i, out: o },
                App::Reshape { new_shape: t, inp: j, out: p },
            ) => same_words(s.as_slice(), t.as_slice()) && *i == *j && *o == *p,
            (
                App::Broadcast { to_shape: s, inp: i, out: o },
                App::Broadcast { to_shape: t, inp: j, out: p },
            ) => same_words(s.as_slice(), t.as_slice()) && *i == *j && *o == *p,
            (App::Copy { inp: i, outs: o }, App::Copy { inp: j, outs: p }) => *i == *j
                && same_wires(o.as_slice(), p.as_slice()),
            (App::Delete { inp: i }, App::Delete { inp: j }) => *i == *j,
            (
                App::Swap { in1: a, in2: b, out1: c, out2: d },
                App::Swap { in1: e, in2: f, out1: g, out2: h },
            ) => *a == *e && *b == *f && *c == *g && *d == *h,
            (
                App::Stack { inputs: i, output: o },
                App::Stack { inputs: j, output: p },
            ) => same_wires(i.as_slice(), j.as_slice()) && *o == *p,
            _ => false,
        }
    }
}

impl vstd::std_specs::cmp::PartialEqSpecImpl for App {
    open spec fn obeys_eq_spec() -> bool {
        true
    }

    open spec fn eq_spec(&self, other: &App) -> bool {
        self@ == other@
    }
}

impl Eq for App {

}

impl App {
    /// The tag of the wire format.
    pub fn tag(&self) -> (r: u8)
        ensures
            r == self@.tag(),
    {
        match self {
            App::Const { .. } => 0,
            App::Contract { .. } => 1,
            App::Cast { .. } => 2,
            App::Cell { .. } => 3,
            App::Reshape { .. } => 4,
            App::Broadcast { .. } => 5,
            App::Copy { .. } => 6,
            App::Delete { .. } => 7,
            App::Swap { .. } => 8,
            App::Stack { .. } => 9,
        }
    }

    /// The name of the box.
    pub fn name(&self) -> (r: &'static str)
        ensures
            r == self@.name(),
    {
        match self {
            App::Const { .. } => "const",
            App::Contract { .. } => "contract",
            App::Cast { .. } => "cast",
            App::Cell { .. } => "cell",
            App::Reshape { .. } => "reshape",
            App::Broadcast { .. } => "broadcast",
            App::Copy { .. } => "copy",
            App::Delete { .. } => "delete",
            App::Swap { .. } => "swap",
            App::Stack { .. } => "stack",
        }
    }

    /// The consumed wires, in order.
    pub fn input_wires(&self) -> (r: Vec<Wire>)
        ensures
            r@ == self@.reads(),
    {
        let r: Vec<Wire> = match self {
            App::Const { .. } => Vec::new(),
            App::Contract { inputs, .. } => copy_wires(inputs.as_slice()),
            App::Cast { inp, .. } => vec![*inp],
            App::Cell { inp, .. } => vec![*inp],
            App::Reshape { inp, .. } => vec![*inp],
            App::Broadcast { inp, .. } => vec![*inp],
            App::Copy { inp, .. } => vec![*inp],
            App::Delete { inp } => vec![*inp],
            App::Swap { in1, in2, .. } => vec![*in1, *in2],
            App::Stack { inputs, .. } => copy_wires(inputs.as_slice()),
        };
        assert(r@ =~= self@.reads());
        r
    }

    /// The produced wires, in order.
    pub fn output_wires(&self) -> (r: Vec<Wire>)
        ensures
            r@ == self@.writes(),
    {
        let r: Vec<Wire> = match self {
            App::Const { out, .. } => vec![*out],
            App::Contract { output, .. } => vec![*output],
            App::Cast { out, .. } => vec![*out],
            App::Cell { outs, .. } => copy_wires(outs.as_slice()),
            App::Reshape { out, .. } => vec![*out],
            App::Broadcast { out, .. } => vec![*out],
            App::Copy { outs, .. } => copy_wires(outs.as_slice()),
            App::Delete { .. } => Vec::new(),
            App::Swap { out1, out2, .. } => vec![*out1, *out2],
            App::Stack { output, .. } => vec![*output],
        };
        assert(r@ =~= self@.writes());
        r
    }

    /// The application with other wires, and for a `cell` another complex.
    fn rewired(&self, reads: Vec<Wire>, writes: Vec<Wire>, complex: u32) -> (r: App)
        requires
            reads@.len() == self@.reads().len(),
            writes@.len() == self@.writes().len(),
        ensures
            self@.same_shape(r@),
            r@.reads() == reads@,
            r@.writes() == writes@,
            r@ matches AppModel::Cell { complex_idx, .. } ==> complex_idx == complex,
    {
        let r: App = match self {
            App::Const { value, .. } => App::Const { out: writes[0], value: value.clone() },
            App::Contract { extents, in_bindings, out_binding, .. } => App::Contract {
                output: writes[0],
                inputs: copy_wires(reads.as_slice()),
                extents: copy_words(extents.as_slice()),
                in_bindings: copy_bindings(in_bindings.as_slice()),
                out_binding: copy_wires(out_binding.as_slice()),
            },
            App::Cast { .. } => App::Cast { inp: reads[0], out: writes[0] },
            App::Cell { .. } => App::Cell {
                complex_idx: complex,
                inp: reads[0],
                outs: copy_wires(writes.as_slice()),
            },
            App::Reshape { new_shape, .. } => App::Reshape {
                new_shape: copy_words(new_shape.as_slice()),
                inp: reads[0],
                out: writes[0],
            },
            App::Broadcast { to_shape, .. } => App::Broadcast {
                to_shape: copy_words(to_shape.as_slice()),
                inp: reads[0],
                out: writes[0],
            },
            App::Copy { .. } => App::Copy { inp: reads[0], outs: copy_wires(writes.as_slice()) },
            App::Delete { .. } => App::Delete { inp: reads[0] },
            App::Swap { .. } => App::Swap {
                in1: reads[0],
                in2: reads[1],
                out1: writes[0],
                out2: writes[1],
            },
            App::Stack { .. } => App::Stack {
                inputs: copy_wires(reads.as_slice()),
                output: writes[0],
            },
        };
        assert(r@.reads() =~= reads@);
        assert(r@.writes() =~= writes@);
        r
    }

    /// The application with every wire passed through `wmap` and the complex of a `cell`
    /// through `cmap`: a renaming that leaves everything else as it is. Both maps may have
    /// state. `wmap` is asked once for each consumed wire, in order, and then once for each
    /// produced one; `cmap` once for the complex of a `cell`, and never else.
    ///
    /// The contract speaks of the answers and of their order. It does not count the calls: what
    /// a call says of a map that is handed in is what it answers, not the state it leaves.
    pub fn remap<F: FnMut(Wire) -> Wire, G: FnMut(u32) -> u32>(
        &self,
        wmap: &mut F,
        cmap: &mut G,
    ) -> (r: App)
        requires
            forall|i: int|
                0 <= i < self@.reads().len() ==> call_requires(
                    *old(wmap),
                    (#[trigger] self@.reads()[i],),
                ),
            forall|i: int|
                0 <= i < self@.writes().len() ==> call_requires(
                    *old(wmap),
                    (#[trigger] self@.writes()[i],),
                ),
            self@ matches AppModel::Cell { complex_idx, .. } ==> call_requires(
                *old(cmap),
                (complex_idx,),
            ),
        ensures
            self@.same_shape(r@),
            exists|fs: Seq<F>| answered(
                *old(wmap),
                *final(wmap),
                fs,
                self@.reads() + self@.writes(),
                r@.reads() + r@.writes(),
            ),
            r@.reads().len() == self@.reads().len(),
            self@ matches AppModel::Cell { complex_idx: c, .. } ==> (r@ matches AppModel::Cell {
                complex_idx: d,
                ..
            } && call_ensures(*old(cmap), (c,), d)),
            !(self@ is Cell) ==> *final(cmap) == *old(cmap),
    {
        let complex: u32 = match self {
            App::Cell { complex_idx, .. } => cmap(*complex_idx),
            _ => 0,
        };
        let mut asked: Vec<Wire> = self.input_wires();
        let n: usize = asked.len();
        let mut writes: Vec<Wire> = self.output_wires();
        asked.append(&mut writes);
        assert(asked@ =~= self@.reads() + self@.writes());
        proof {
            let all: Seq<Wire> = asked@;
            assert forall|i: int| 0 <= i < all.len() implies call_requires(
                *wmap,
                (#[trigger] all[i],),
            ) by {
                if i < n {
                    assert(all[i] == self@.reads()[i]);
                } else {
                    assert(all[i] == self@.writes()[i - n]);
                }
            }
        }
        let ys: Vec<Wire> = ask_each(wmap, asked.as_slice());
        let reads2: Vec<Wire> = copy_wires(slice_subrange(ys.as_slice(), 0, n));
        let writes2: Vec<Wire> = copy_wires(slice_subrange(ys.as_slice(), n, ys.len()));
        assert(reads2@ + writes2@ =~= ys@);
        self.rewired(reads2, writes2, complex)
    }

    /// [`App::remap`] with maps without state, taken by value.
    pub fn remap_wires<F: Fn(Wire) -> Wire, G: Fn(u32) -> u32>(&self, wmap: F, cmap: G) -> (r: App)
        requires
            forall|i: int|
                0 <= i < self@.reads().len() ==> call_requires(
                    wmap,
                    (#[trigger] self@.reads()[i],),
                ),
            forall|i: int|
                0 <= i < self@.writes().len() ==> call_requires(
                    wmap,
                    (#[trigger] self@.writes()[i],),
                ),
            self@ matches AppModel::Cell { complex_idx, .. } ==> call_requires(
                cmap,
                (complex_idx,),
            ),
        ensures
            self@.same_shape(r@),
            mapped(wmap, self@.reads(), r@.reads()),
            mapped(wmap, self@.writes(), r@.writes()),
            self@ matches AppModel::Cell { complex_idx: c, .. } ==> (r@ matches AppModel::Cell {
                complex_idx: d,
                ..
            } && call_ensures(cmap, (c,), d)),
    {
        let complex: u32 = match self {
            App::Cell { complex_idx, .. } => cmap(*complex_idx),
            _ => 0,
        };
        let reads: Vec<Wire> = map_wires(&wmap, self.input_wires().as_slice());
        let writes: Vec<Wire> = map_wires(&wmap, self.output_wires().as_slice());
        self.rewired(reads, writes, complex)
    }
}

} // verus!
