//! When a graph cannot be written, and what the refusal names.

use super::super::app;
use super::super::graph;
use super::super::scalar;
use super::layout;
use super::layout::CanonFault;
use crate::nt;
use vstd::prelude::*;

verus! {

/// A rational in lowest terms: the denominator is positive, and no number above one divides
/// both parts.
pub open spec fn lowest_terms(q: scalar::Ratio) -> bool {
    &&& q.den >= 1
    &&& forall|d: int| d > 1 && #[trigger] (q.num % d) == 0 ==> q.den % d != 0
}

/// The greatest common divisor of two numbers divides both.
proof fn lemma_gcd_divides(a: nat, b: nat)
    requires
        a > 0 || b > 0,
    ensures
        nt::gcd(a, b) > 0,
        a as int % nt::gcd(a, b) as int == 0,
        b as int % nt::gcd(a, b) as int == 0,
{
    let xy: (int, int) = nt::bezout(a, b);
}

/// What is canonical is in lowest terms, and the other way round.
pub proof fn law_canonical_is_lowest_terms(q: scalar::Ratio)
    ensures
        scalar::canonical(q) <==> lowest_terms(q),
{
    if q.den >= 1 {
        let n: nat = nt::abs(q.num) as nat;
        let m: nat = q.den as nat;
        let g: int = nt::gcd(n, m) as int;
        lemma_gcd_divides(n, m);
        if g == 1 {
            assert forall|d: int| d > 1 && #[trigger] (q.num % d) == 0 implies q.den % d != 0 by {
                if q.den % d == 0 {
                    lemma_abs_divides(q.num, d);
                    nt::common_divisor_divides_gcd(d, n, m);
                    nt::divides_le(d, 1);
                }
            }
        } else {
            lemma_abs_divides(q.num, g);
            assert(g > 1);
            assert(q.num % g == 0);
            assert(q.den % g == 0);
        }
    }
}

/// A divisor of a number divides its absolute value, and the other way round.
proof fn lemma_abs_divides(x: int, d: int)
    requires
        d > 0,
    ensures
        x % d == 0 <==> nt::abs(x) % d == 0,
{
    if x < 0 {
        if x % d == 0 {
            let k: int = x / d;
            vstd::arithmetic::div_mod::lemma_fundamental_div_mod(x, d);
            assert(-x == d * (-k)) by (nonlinear_arith)
                requires
                    x == d * k,
            ;
            vstd::arithmetic::div_mod::lemma_mod_multiples_basic(-k, d);
            assert(d * (-k) == (-k) * d) by (nonlinear_arith);
        }
        if (-x) % d == 0 {
            let k: int = (-x) / d;
            vstd::arithmetic::div_mod::lemma_fundamental_div_mod(-x, d);
            assert(x == d * (-k)) by (nonlinear_arith)
                requires
                    -x == d * k,
            ;
            vstd::arithmetic::div_mod::lemma_mod_multiples_basic(-k, d);
            assert(d * (-k) == (-k) * d) by (nonlinear_arith);
        }
    }
}

/// The coordinates of complex `i` are in lowest terms.
pub open spec fn complex_reduced(net: graph::NetModel, i: int) -> bool {
    forall|v: int, k: int|
        0 <= v < net.complexes[i].vertices.len() && 0 <= k < net.complexes[i].vertices[v].len()
            ==> lowest_terms(#[trigger] net.complexes[i].vertices[v][k])
}

/// Why application `i` cannot be written, if it cannot: an entry of its literal is not in
/// lowest terms, or a wire whose type is written with it has none.
pub open spec fn app_unwritable(net: graph::NetModel, i: int, e: CanonFault) -> bool {
    let n = net.wire_types.len();
    match net.apps[i] {
        app::AppModel::Const { value, .. } => match value {
            app::PayloadModel::Rat(qs) => {
                &&& e is EncodeNonCanonicalRational
                &&& exists|k: int| 0 <= k < qs.len() && !lowest_terms(#[trigger] qs[k])
            },
            app::PayloadModel::Bits(_) => false,
        },
        app::AppModel::Contract { output, .. } => {
            &&& output >= n
            &&& e == (CanonFault::EncodeWireOutOfRange {
                app: i as u32,
                wire: output,
                table_len: n as u32,
            })
        },
        app::AppModel::Cast { inp, out } => {
            &&& inp >= n || out >= n
            &&& e == (CanonFault::EncodeWireOutOfRange {
                app: i as u32,
                wire: if inp >= n {
                    inp
                } else {
                    out
                },
                table_len: n as u32,
            })
        },
        _ => false,
    }
}

/// Why one application cannot be written.
proof fn lemma_app(net: graph::NetModel, i: int)
    requires
        0 <= i < net.apps.len(),
    ensures
        forall|e: CanonFault|
            layout::app_refusal(net, i as u32, net.apps[i]) == Some(e) <==> #[trigger] app_unwritable(
                net,
                i,
                e,
            ),
{
    if let app::AppModel::Const { out, value } = net.apps[i] {
        if let app::PayloadModel::Rat(qs) = value {
            if layout::all_canonical(qs) {
                assert forall|k: int| 0 <= k < qs.len() implies lowest_terms(#[trigger] qs[k]) by {
                    assert(scalar::canonical(qs[k]));
                    law_canonical_is_lowest_terms(qs[k]);
                }
            } else {
                let k: int = choose|k: int|
                    0 <= k < qs.len() && !scalar::canonical(#[trigger] qs[k]);
                law_canonical_is_lowest_terms(qs[k]);
                assert(!lowest_terms(qs[k]));
            }
        }
    }
}

/// Application `i` is the first that cannot be written, and `e` says why.
pub open spec fn first_unwritable(net: graph::NetModel, i: int, e: CanonFault) -> bool {
    &&& 0 <= i < net.apps.len()
    &&& app_unwritable(net, i, e)
    &&& forall|j: int, d: CanonFault| 0 <= j < i ==> !#[trigger] app_unwritable(net, j, d)
}

/// Why the applications before `n` cannot be written.
proof fn lemma_apps(net: graph::NetModel, n: int)
    requires
        0 <= n <= net.apps.len(),
    ensures
        match layout::apps_refusal(net, n) {
            None => forall|j: int, d: CanonFault|
                0 <= j < n ==> !#[trigger] app_unwritable(net, j, d),
            Some(e) => exists|i: int| i < n && #[trigger] first_unwritable(net, i, e),
        },
    decreases n,
{
    if n > 0 {
        lemma_apps(net, n - 1);
        lemma_app(net, n - 1);
        match layout::apps_refusal(net, n - 1) {
            Some(e) => {
                let i: int = choose|i: int| i < n - 1 && #[trigger] first_unwritable(net, i, e);
                assert(i < n && first_unwritable(net, i, e));
            },
            None => {
                match layout::app_refusal(net, (n - 1) as u32, net.apps[n - 1]) {
                    Some(e) => {
                        assert(app_unwritable(net, n - 1, e));
                        assert(first_unwritable(net, n - 1, e));
                    },
                    None => {
                        assert forall|j: int, d: CanonFault| 0 <= j < n implies !#[trigger] app_unwritable(
                            net,
                            j,
                            d,
                        ) by {}
                    },
                }
            },
        }
    }
}

/// A graph is written exactly where every coordinate and every literal entry is in lowest
/// terms and every wire whose type is written with an application has one. Else the refusal
/// speaks of the coordinates, if one of them is at fault, or of the first application that
/// is.
pub proof fn law_refusal_names_the_first(net: graph::NetModel)
    ensures
        match layout::refusal(net) {
            None => {
                &&& forall|i: int| 0 <= i < net.complexes.len() ==> #[trigger] complex_reduced(net, i)
                &&& forall|j: int, d: CanonFault|
                    0 <= j < net.apps.len() ==> !#[trigger] app_unwritable(net, j, d)
            },
            Some(e) => if forall|i: int|
                0 <= i < net.complexes.len() ==> #[trigger] complex_reduced(net, i) {
                exists|i: int| #[trigger] first_unwritable(net, i, e)
            } else {
                e is EncodeNonCanonicalRational
            },
        },
{
    lemma_apps(net, net.apps.len() as int);
    assert forall|i: int| 0 <= i < net.complexes.len() implies (#[trigger] complex_reduced(net, i)
        <==> layout::complex_canonical(net.complexes[i])) by {
        let vs: Seq<Seq<scalar::Ratio>> = net.complexes[i].vertices;
        if layout::complex_canonical(net.complexes[i]) {
            assert forall|v: int, k: int|
                0 <= v < net.complexes[i].vertices.len() && 0 <= k
                    < net.complexes[i].vertices[v].len() implies lowest_terms(
                #[trigger] net.complexes[i].vertices[v][k],
            ) by {
                assert(layout::all_canonical(vs[v]));
                assert(scalar::canonical(vs[v][k]));
                law_canonical_is_lowest_terms(vs[v][k]);
            }
        }
        if complex_reduced(net, i) {
            assert forall|v: int| 0 <= v < vs.len() implies layout::all_canonical(
                #[trigger] vs[v],
            ) by {
                assert forall|k: int| 0 <= k < vs[v].len() implies scalar::canonical(
                    #[trigger] vs[v][k],
                ) by {
                    assert(lowest_terms(net.complexes[i].vertices[v][k]));
                    law_canonical_is_lowest_terms(vs[v][k]);
                }
            }
        }
    }
    if exists|i: int|
        0 <= i < net.complexes.len() && !layout::complex_canonical(#[trigger] net.complexes[i]) {
        let i: int = choose|i: int|
            0 <= i < net.complexes.len() && !layout::complex_canonical(
                #[trigger] net.complexes[i],
            );
        assert(!complex_reduced(net, i));
    } else {
        assert forall|i: int| 0 <= i < net.complexes.len() implies #[trigger] complex_reduced(
            net,
            i,
        ) by {
            assert(layout::complex_canonical(net.complexes[i]));
        }
    }
}

} // verus!
