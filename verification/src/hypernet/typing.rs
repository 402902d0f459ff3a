//! What the typing rule of each box says of the tensors: which shapes and element types go
//! together, and what a broadcast does to the entries.

use super::app;
use super::app::Wire;
use super::builder_boxes::{axes_bound, lemma_stretches, lemma_volume, stretches, volume};
use super::graph;
use super::types::{Dtype, Ext, Kind, Sign};
use super::wellformed;
use vstd::prelude::*;

verus! {

/// The rule of each box, over the wire-type table: which types its wires have to have.
pub open spec fn rule(net: graph::NetModel, a: app::AppModel) -> bool {
    let ts = net.wire_types;
    match a {
        app::AppModel::Const { out, value } => match value {
            app::PayloadModel::Rat(qs) => ts[out as int].dtype.kind is Rat && qs.len() == volume(
                ts[out as int].shape,
            ) % 0x1_0000_0000_0000_0000,
            app::PayloadModel::Bits(bits) => !(ts[out as int].dtype.kind is Rat) && bits.len()
                == volume(ts[out as int].shape) % 0x1_0000_0000_0000_0000,
        },
        app::AppModel::Contract { inputs, output, extents, in_bindings, out_binding } => {
            &&& in_bindings.len() == inputs.len()
            &&& forall|k: int|
                0 <= k < inputs.len() ==> {
                    &&& ts[#[trigger] inputs[k] as int].dtype == ts[output as int].dtype
                    &&& axes_bound(ts[inputs[k] as int].shape, extents, in_bindings[k])
                }
            &&& axes_bound(ts[output as int].shape, extents, out_binding)
        },
        app::AppModel::Cast { inp, out } => ts[out as int].shape == ts[inp as int].shape,
        app::AppModel::Cell { complex_idx, inp, outs } => {
            &&& ts[inp as int].dtype.kind is Rat
            &&& ts[inp as int].shape.len() == 1
            &&& ts[inp as int].shape[0] == net.complexes[complex_idx as int].amb_dim
            &&& outs.len() == net.complexes[complex_idx as int].cells.len()
            &&& forall|i: int|
                0 <= i < outs.len() ==> {
                    &&& ts[#[trigger] outs[i] as int].dtype == (Dtype {
                        kind: Kind::Bool,
                        sign: Sign::NonNeg,
                        ext: Ext::Fin,
                    })
                    &&& ts[outs[i] as int].shape.len() == 0
                }
        },
        app::AppModel::Reshape { new_shape, inp, out } => {
            &&& ts[out as int].shape == new_shape
            &&& ts[out as int].dtype == ts[inp as int].dtype
            &&& volume(ts[inp as int].shape) % 0x1_0000_0000_0000_0000 == volume(new_shape)
                % 0x1_0000_0000_0000_0000
        },
        app::AppModel::Broadcast { to_shape, inp, out } => {
            &&& ts[out as int].shape == to_shape
            &&& stretches(ts[inp as int].shape, ts[out as int].shape)
        },
        app::AppModel::Copy { inp, outs } => forall|i: int|
            0 <= i < outs.len() ==> ts[#[trigger] outs[i] as int] == ts[inp as int],
        app::AppModel::Delete { .. } => true,
        app::AppModel::Swap { in1, in2, out1, out2 } => {
            &&& ts[out1 as int] == ts[in2 as int]
            &&& ts[out2 as int] == ts[in1 as int]
        },
        app::AppModel::Stack { inputs, output } => {
            let s = ts[inputs[0] as int].shape;
            let d = ts[output as int].shape;
            &&& inputs.len() > 0
            &&& forall|i: int|
                0 <= i < inputs.len() ==> ts[#[trigger] inputs[i] as int] == ts[inputs[0] as int]
            &&& ts[output as int].dtype == ts[inputs[0] as int].dtype
            &&& d.len() == s.len() + 1
            &&& d[0] == inputs.len()
            &&& forall|i: int| 0 <= i < s.len() ==> d[i + 1] == #[trigger] s[i]
        },
    }
}

/// A box has no typing fault exactly where its types obey its rule.
pub proof fn law_typing_is_decided(net: graph::NetModel, a: app::AppModel)
    requires
        a matches app::AppModel::Stack { inputs, .. } ==> inputs.len() <= u64::MAX,
    ensures
        net.type_faults(a).len() == 0 <==> rule(net, a),
{
    wellformed::lemma_fits(net, a);
    let ts = net.wire_types;
    match a {
        app::AppModel::Const { out, value } => {
            lemma_volume(ts[out as int].shape);
        },
        app::AppModel::Contract { inputs, output, extents, in_bindings, out_binding } => {
            assert(wellformed::bound(ts[output as int].shape, extents, out_binding)
                <==> axes_bound(ts[output as int].shape, extents, out_binding));
            assert forall|k: int| 0 <= k < inputs.len() implies (wellformed::bound(
                ts[#[trigger] inputs[k] as int].shape,
                extents,
                in_bindings[k],
            ) <==> axes_bound(ts[inputs[k] as int].shape, extents, in_bindings[k])) by {}
            if rule(net, a) {
                assert forall|k: int| 0 <= k < inputs.len() implies net.typ(
                    #[trigger] inputs[k],
                ).dtype == net.typ(output).dtype && wellformed::bound(
                    net.typ(inputs[k]).shape,
                    extents,
                    in_bindings[k],
                ) by {
                    assert(ts[inputs[k] as int].dtype == ts[output as int].dtype);
                }
            }
            if net.fits(a) {
                assert forall|k: int| 0 <= k < inputs.len() implies {
                    &&& ts[#[trigger] inputs[k] as int].dtype == ts[output as int].dtype
                    &&& axes_bound(ts[inputs[k] as int].shape, extents, in_bindings[k])
                } by {
                    assert(net.typ(inputs[k]).dtype == net.typ(output).dtype);
                }
            }
        },
        app::AppModel::Cell { complex_idx, inp, outs } => {
            let d: u32 = net.complexes[complex_idx as int].amb_dim;
            let shape: Seq<u64> = ts[inp as int].shape;
            assert(seq![d as u64][0] == d);
            if shape.len() == 1 && shape[0] == d {
                assert(shape =~= seq![d as u64]);
            }
            if rule(net, a) {
                assert forall|i: int| 0 <= i < outs.len() implies net.typ(#[trigger] outs[i]) == (
                super::types::TypeModel { dtype: Dtype::boolean(), shape: Seq::empty() }) by {
                    assert(ts[outs[i] as int].shape.len() == 0);
                    assert(ts[outs[i] as int].shape =~= Seq::empty());
                }
            }
            if net.fits(a) {
                assert forall|i: int| 0 <= i < outs.len() implies {
                    &&& ts[#[trigger] outs[i] as int].dtype == (Dtype {
                        kind: Kind::Bool,
                        sign: Sign::NonNeg,
                        ext: Ext::Fin,
                    })
                    &&& ts[outs[i] as int].shape.len() == 0
                } by {
                    assert(net.typ(outs[i]).shape.len() == 0);
                }
            }
        },
        app::AppModel::Reshape { new_shape, inp, out } => {
            lemma_volume(ts[inp as int].shape);
            lemma_volume(new_shape);
        },
        app::AppModel::Broadcast { to_shape, inp, out } => {
            lemma_stretches(ts[inp as int].shape, to_shape);
        },
        app::AppModel::Copy { inp, outs } => {
            if net.fits(a) {
                assert forall|i: int| 0 <= i < outs.len() implies ts[#[trigger] outs[i] as int]
                    == ts[inp as int] by {
                    assert(net.typ(outs[i]) == net.typ(inp));
                }
            }
        },
        app::AppModel::Stack { inputs, output } => {
            if inputs.len() > 0 {
                let s: Seq<u64> = ts[inputs[0] as int].shape;
                let d: Seq<u64> = ts[output as int].shape;
                let e: Seq<u64> = seq![inputs.len() as u64] + s;
                if rule(net, a) {
                    assert forall|i: int| 0 <= i < e.len() implies e[i] == d[i] by {
                        if i > 0 {
                            assert(d[(i - 1) + 1] == s[i - 1]);
                        }
                    }
                    assert(e =~= d);
                }
                if net.fits(a) {
                    assert(d == e);
                    assert forall|i: int| 0 <= i < s.len() implies d[i + 1] == #[trigger] s[i] by {
                        assert(e[i + 1] == s[i]);
                    }
                    assert forall|i: int| 0 <= i < inputs.len() implies ts[#[trigger] inputs[i] as int]
                        == ts[inputs[0] as int] by {
                        assert(net.typ(inputs[i]) == net.typ(inputs[0]));
                    }
                }
            }
        },
        _ => {},
    }
}

/// In a graph without violations every application's wires have a type, its complex exists,
/// and its types obey its rule.
pub proof fn law_boxes_are_typed(net: graph::NetModel, n: int)
    requires
        net.faults().len() == 0,
        0 <= n < net.apps.len(),
        net.apps[n] matches app::AppModel::Stack { inputs, .. } ==> inputs.len() <= u64::MAX,
    ensures
        rule(net, net.apps[n]),
        forall|i: int|
            0 <= i < net.apps[n].reads().len() ==> #[trigger] net.apps[n].reads()[i]
                < net.wire_types.len(),
        forall|i: int|
            0 <= i < net.apps[n].writes().len() ==> #[trigger] net.apps[n].writes()[i]
                < net.wire_types.len(),
        net.apps[n] matches app::AppModel::Cell { complex_idx, .. } ==> complex_idx
            < net.complexes.len(),
{
    wellformed::law_preflight_decides(net);
    assert(net.typed(net.apps[n]));
    wellformed::lemma_fits(net, net.apps[n]);
    law_typing_is_decided(net, net.apps[n]);
    assert forall|i: int| 0 <= i < net.apps[n].reads().len() implies #[trigger] net.apps[n].reads()[i]
        < net.wire_types.len() by {
        assert(net.knows(net.apps[n].reads()[i]));
    }
    assert forall|i: int| 0 <= i < net.apps[n].writes().len() implies #[trigger] net.apps[n].writes()[i]
        < net.wire_types.len() by {
        assert(net.knows(net.apps[n].writes()[i]));
    }
}

/// A place in a tensor of the given shape.
pub open spec fn is_place(p: Seq<int>, shape: Seq<u64>) -> bool {
    &&& p.len() == shape.len()
    &&& forall|i: int| 0 <= i < p.len() ==> 0 <= #[trigger] p[i] < shape[i]
}

/// The place of a broadcast's input that stands at place `p` of its output: the trailing
/// axes, and place zero where the input has the extent one.
pub open spec fn replicated(src: Seq<u64>, dst: Seq<u64>, p: Seq<int>) -> Seq<int> {
    Seq::new(
        src.len(),
        |i: int|
            if src[i] == 1 {
                0
            } else {
                p[dst.len() - src.len() + i]
            },
    )
}

/// How often each entry of the input stands in the output.
proof fn lemma_copies(src: Seq<u64>, dst: Seq<u64>) -> (m: nat)
    requires
        stretches(src, dst),
    ensures
        volume(dst) == m * volume(src),
    decreases dst.len(),
{
    if dst.len() == 0 {
        1
    } else if dst.len() > src.len() {
        let rest: Seq<u64> = dst.subrange(1, dst.len() as int);
        assert(stretches(src, rest)) by {
            assert forall|k: int| 1 <= k <= src.len() implies #[trigger] src[src.len() - k] == 1
                || src[src.len() - k] == rest[rest.len() - k] by {
                assert(src[src.len() - k] == 1 || src[src.len() - k] == dst[dst.len() - k]);
            }
        }
        let k: nat = lemma_copies(src, rest);
        let x: int = dst[0] as int;
        let v: int = volume(src) as int;
        assert(x * (k * v) == (x * k) * v) by (nonlinear_arith);
        assert(x * k >= 0) by (nonlinear_arith)
            requires
                x >= 0,
                k >= 0,
        ;
        (x * k) as nat
    } else {
        let n: int = dst.len() as int;
        let a: Seq<u64> = src.subrange(1, n);
        let b: Seq<u64> = dst.subrange(1, n);
        assert(stretches(a, b)) by {
            assert forall|k: int| 1 <= k <= a.len() implies #[trigger] a[a.len() - k] == 1
                || a[a.len() - k] == b[b.len() - k] by {
                assert(src[src.len() - k] == 1 || src[src.len() - k] == dst[dst.len() - k]);
            }
        }
        let k: nat = lemma_copies(a, b);
        let x: int = dst[0] as int;
        let v: int = volume(a) as int;
        assert(src[src.len() - n] == 1 || src[src.len() - n] == dst[dst.len() - n]);
        if src[0] == 1 {
            assert(x * (k * v) == (x * k) * (1 * v)) by (nonlinear_arith);
            assert(x * k >= 0) by (nonlinear_arith)
                requires
                    x >= 0,
                    k >= 0,
            ;
            (x * k) as nat
        } else {
            assert(x * (k * v) == k * (x * v)) by (nonlinear_arith);
            k
        }
    }
}

/// A broadcast only replicates. In a graph without violations the output of a broadcast has
/// the shape that the box names; each axis of it that stands over an axis of the input has
/// the input's extent, unless that is one. So every place of the output names one place of
/// the input, every place of the input is named where the output has entries at all, and
/// the number of entries of the output is a multiple of the number of entries of the input.
pub proof fn law_broadcast_only_replicates(
    net: graph::NetModel,
    n: int,
    to_shape: Seq<u64>,
    inp: Wire,
    out: Wire,
)
    requires
        net.faults().len() == 0,
        0 <= n < net.apps.len(),
        net.apps[n] == (app::AppModel::Broadcast { to_shape, inp, out }),
    ensures
        inp < net.wire_types.len(),
        out < net.wire_types.len(),
        ({
            let src = net.wire_types[inp as int].shape;
            let dst = net.wire_types[out as int].shape;
            &&& dst == to_shape
            &&& src.len() <= dst.len()
            &&& forall|i: int|
                0 <= i < src.len() && src[i] != 1 ==> dst[dst.len() - src.len() + i]
                    == #[trigger] src[i]
            &&& forall|p: Seq<int>|
                is_place(p, dst) ==> is_place(#[trigger] replicated(src, dst, p), src)
            &&& (forall|i: int| 0 <= i < dst.len() ==> #[trigger] dst[i] > 0) ==> forall|q: Seq<int>|
                is_place(q, src) ==> exists|p: Seq<int>|
                    is_place(p, dst) && #[trigger] replicated(src, dst, p) == q
            &&& exists|m: nat| #[trigger] (m * volume(src)) == volume(dst)
        }),
{
    law_boxes_are_typed(net, n);
    let src: Seq<u64> = net.wire_types[inp as int].shape;
    let dst: Seq<u64> = net.wire_types[out as int].shape;
    let shift: int = dst.len() - src.len();
    assert(net.apps[n].reads()[0] == inp);
    assert(net.apps[n].writes()[0] == out);
    assert forall|i: int| 0 <= i < src.len() && src[i] != 1 implies dst[shift + i]
        == #[trigger] src[i] by {
        let k: int = src.len() - i;
        assert(src[src.len() - k] == 1 || src[src.len() - k] == dst[dst.len() - k]);
    }
    assert forall|p: Seq<int>| is_place(p, dst) implies is_place(
        #[trigger] replicated(src, dst, p),
        src,
    ) by {
        let q: Seq<int> = replicated(src, dst, p);
        assert forall|i: int| 0 <= i < q.len() implies 0 <= #[trigger] q[i] < src[i] by {
            assert(0 <= p[shift + i] < dst[shift + i]);
        }
    }
    if forall|i: int| 0 <= i < dst.len() ==> #[trigger] dst[i] > 0 {
        assert forall|q: Seq<int>| is_place(q, src) implies exists|p: Seq<int>|
            is_place(p, dst) && #[trigger] replicated(src, dst, p) == q by {
            let p: Seq<int> = Seq::new(
                dst.len(),
                |i: int|
                    if i < shift || src[i - shift] == 1 {
                        0
                    } else {
                        q[i - shift]
                    },
            );
            assert forall|i: int| 0 <= i < p.len() implies 0 <= #[trigger] p[i] < dst[i] by {
                assert(dst[i] > 0);
                if i >= shift && src[i - shift] != 1 {
                    assert(0 <= q[i - shift] < src[i - shift]);
                    assert(dst[shift + (i - shift)] == src[i - shift]);
                }
            }
            assert forall|i: int| 0 <= i < q.len() implies q[i] == replicated(src, dst, p)[i] by {
                assert(0 <= q[i] < src[i]);
            }
            assert(replicated(src, dst, p) =~= q);
        }
    }
    let m: nat = lemma_copies(src, dst);
    assert(m * volume(src) == volume(dst));
}

} // verus!
