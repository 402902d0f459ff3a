//! The order in which a complex lists its simplices: it is no part of the bytes.

use super::super::graph;
use super::super::simplex;
use super::complete;
use super::layout;
use super::order;
use vstd::prelude::*;

verus! {

/// The complexes differ at most in the order of their simplices.
pub open spec fn reorders(c: simplex::ComplexModel, d: simplex::ComplexModel) -> bool {
    &&& c.amb_dim == d.amb_dim
    &&& c.vertices == d.vertices
    &&& c.cells == d.cells
    &&& c.simplices.to_multiset() == d.simplices.to_multiset()
}

/// The graphs differ at most in the order of the simplices of their complexes.
pub open spec fn reordered(x: graph::NetModel, y: graph::NetModel) -> bool {
    &&& x.wire_types == y.wire_types
    &&& x.apps == y.apps
    &&& x.graph_inputs == y.graph_inputs
    &&& x.graph_outputs == y.graph_outputs
    &&& x.complexes.len() == y.complexes.len()
    &&& forall|i: int|
        0 <= i < x.complexes.len() ==> reorders(#[trigger] x.complexes[i], y.complexes[i])
}

/// The members of a complex's simplices have their places in whatever order they are listed.
proof fn lemma_reordered_fits(c: simplex::ComplexModel, d: simplex::ComplexModel)
    requires
        reorders(c, d),
    ensures
        layout::complex_canonical(c) == layout::complex_canonical(d),
        layout::complex_fits(c) ==> layout::complex_fits(d),
{
    broadcast use vstd::seq_lib::group_to_multiset_ensures;

    if layout::complex_fits(c) {
        let n: u32 = c.vertices.len() as u32;
        assert forall|i: int| 0 <= i < d.simplices.len() implies layout::fits(
            #[trigger] d.simplices[i],
            n,
        ) by {
            let s: Set<u32> = d.simplices[i];
            assert(d.simplices.contains(s));
            assert(c.simplices.to_multiset().count(s) > 0);
            assert(c.simplices.contains(s));
        }
    }
}

/// The applications are refused alike where the wire types are the same.
proof fn lemma_same_refusals(x: graph::NetModel, y: graph::NetModel, n: int)
    requires
        x.wire_types == y.wire_types,
        x.apps == y.apps,
    ensures
        layout::apps_refusal(x, n) == layout::apps_refusal(y, n),
    decreases n,
{
    if n > 0 {
        lemma_same_refusals(x, y, n - 1);
    }
}

proof fn lemma_reordered_writable(x: graph::NetModel, y: graph::NetModel)
    requires
        reordered(x, y),
    ensures
        layout::writable(x) ==> layout::writable(y),
        layout::refusal(x) == layout::refusal(y),
{
    assert forall|i: int| 0 <= i < x.complexes.len() implies layout::complex_canonical(
        #[trigger] x.complexes[i],
    ) == layout::complex_canonical(y.complexes[i]) && (layout::complex_fits(x.complexes[i])
        ==> layout::complex_fits(y.complexes[i])) by {
        lemma_reordered_fits(x.complexes[i], y.complexes[i]);
    }
    assert forall|n: int| #[trigger] layout::apps_refusal(x, n) == layout::apps_refusal(y, n) by {
        lemma_same_refusals(x, y, n);
    }
    if exists|i: int| 0 <= i < x.complexes.len() && !layout::complex_canonical(
        #[trigger] x.complexes[i],
    ) {
        let i: int = choose|i: int|
            0 <= i < x.complexes.len() && !layout::complex_canonical(#[trigger] x.complexes[i]);
        assert(!layout::complex_canonical(y.complexes[i]));
    }
    if exists|i: int| 0 <= i < y.complexes.len() && !layout::complex_canonical(
        #[trigger] y.complexes[i],
    ) {
        let i: int = choose|i: int|
            0 <= i < y.complexes.len() && !layout::complex_canonical(#[trigger] y.complexes[i]);
        assert(!layout::complex_canonical(x.complexes[i]));
    }
    if layout::writable(x) {
        assert forall|i: int|
            0 <= i < y.complexes.len() && (forall|j: int|
                0 <= j <= i ==> layout::complex_canonical(
                    #[trigger] y.complexes[j],
                )) implies layout::complex_fits(#[trigger] y.complexes[i]) by {
            assert forall|j: int| 0 <= j <= i implies layout::complex_canonical(
                #[trigger] x.complexes[j],
            ) by {
                assert(layout::complex_canonical(y.complexes[j]));
            }
            assert(layout::complex_fits(x.complexes[i]));
        }
    }
}

/// The order in which a complex lists its simplices is no part of the bytes: graphs that
/// differ in it alone are written alike, or refused alike.
pub proof fn law_simplex_order_keeps_bytes(x: graph::NetModel, y: graph::NetModel)
    requires
        reordered(x, y),
    ensures
        complete::canonical_form(x) == complete::canonical_form(y),
        layout::spell(x) == layout::spell(y),
        layout::refusal(x) == layout::refusal(y),
        layout::writable(x) == layout::writable(y),
{
    assert forall|i: int| 0 <= i < x.complexes.len() implies complete::ordered(
        #[trigger] x.complexes[i],
    ) == complete::ordered(y.complexes[i]) by {
        assert(reorders(x.complexes[i], y.complexes[i]));
        order::law_arranged_from_any_order(x.complexes[i].simplices, y.complexes[i].simplices);
    }
    assert(complete::canonical_form(x).complexes =~= complete::canonical_form(y).complexes);
    complete::law_canonical_form_same_bytes(x);
    complete::law_canonical_form_same_bytes(y);
    lemma_reordered_writable(x, y);
    assert(reordered(y, x)) by {
        assert forall|i: int| 0 <= i < y.complexes.len() implies reorders(
            #[trigger] y.complexes[i],
            x.complexes[i],
        ) by {
            assert(reorders(x.complexes[i], y.complexes[i]));
        }
    }
    lemma_reordered_writable(y, x);
}

} // verus!
