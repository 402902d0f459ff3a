//! The graph container.

use super::app;
use super::app::{copy_wires, App, Wire};
use super::simplex;
use super::simplex::SimpC;
use super::types;
use super::types::{same_items, TensorType};
use std::collections::{BTreeMap, BTreeSet};
use vstd::prelude::*;
use vstd::std_specs::cmp::PartialEqSpec;

verus! {

broadcast use {
    vstd::std_specs::btree::group_btree_axioms,
    vstd::laws_cmp::group_laws_cmp,
    vstd::laws_eq::group_laws_eq,
};

/// A graph, as the contracts speak of it: everything that is compared and serialized.
#[verifier::ext_equal]
pub struct NetModel {
    /// The wire-type table.
    pub wire_types: Seq<types::TypeModel>,
    /// The complex pool.
    pub complexes: Seq<simplex::ComplexModel>,
    /// The applications.
    pub apps: Seq<app::AppModel>,
    /// The graph inputs.
    pub graph_inputs: Seq<Wire>,
    /// The graph outputs.
    pub graph_outputs: Seq<Wire>,
}

/// A computation graph: wire-type table, complex pool, applications in order, interface.
#[derive(Debug)]
pub struct Hypernet {
    /// The type of each wire.
    pub wire_types: Vec<TensorType>,
    /// The complexes that `cell` applications refer to.
    pub complexes: Vec<SimpC>,
    /// The applications, each behind those whose wires it reads.
    pub apps: Vec<App>,
    /// The graph inputs, in order.
    pub graph_inputs: Vec<Wire>,
    /// The graph outputs, in order.
    pub graph_outputs: Vec<Wire>,
    /// Names for debugging: not compared and not serialized.
    pub wire_names: BTreeMap<Wire, String>,
}

impl View for Hypernet {
    type V = NetModel;

    open spec fn view(&self) -> NetModel {
        NetModel {
            wire_types: types::views(self.wire_types@),
            complexes: types::views(self.complexes@),
            apps: types::views(self.apps@),
            graph_inputs: self.graph_inputs@,
            graph_outputs: self.graph_outputs@,
        }
    }
}

impl NetModel {
    /// The graph without wires.
    pub open spec fn empty() -> NetModel {
        NetModel {
            wire_types: Seq::empty(),
            complexes: Seq::empty(),
            apps: Seq::empty(),
            graph_inputs: Seq::empty(),
            graph_outputs: Seq::empty(),
        }
    }

    /// `w` has a type.
    pub open spec fn knows(self, w: Wire) -> bool {
        w < self.wire_types.len()
    }
}

/// Whether two lists have the same views, item by item.
fn same_views<T: PartialEq + View>(a: &Vec<T>, b: &Vec<T>) -> (r: bool)
    requires
        T::obeys_eq_spec(),
        forall|x: T, y: T| #[trigger] x.eq_spec(&y) == (x@ == y@),
    ensures
        r == (types::views(a@) == types::views(b@)),
{
    let r: bool = same_items(a.as_slice(), b.as_slice());
    proof {
        if r {
            assert(types::views(a@) =~= types::views(b@));
        } else if types::views(a@) == types::views(b@) {
            assert(types::views(a@).len() == types::views(b@).len());
            assert forall|i: int| 0 <= i < a@.len() implies (#[trigger] a@[i]).eq_spec(&b@[i]) by {
                assert(types::views(a@)[i] == types::views(b@)[i]);
            }
        }
    }
    r
}

impl PartialEq for Hypernet {
    fn eq(&self, other: &Hypernet) -> (r: bool) {
        same_views(&self.wire_types, &other.wire_types) && same_views(
            &self.complexes,
            &other.complexes,
        ) && same_views(&self.apps, &other.apps) && app::same_wires(
            self.graph_inputs.as_slice(),
            other.graph_inputs.as_slice(),
        ) && app::same_wires(self.graph_outputs.as_slice(), other.graph_outputs.as_slice())
    }
}

impl vstd::std_specs::cmp::PartialEqSpecImpl for Hypernet {
    open spec fn obeys_eq_spec() -> bool {
        true
    }

    open spec fn eq_spec(&self, other: &Hypernet) -> bool {
        self@ == other@
    }
}

impl Eq for Hypernet {

}

impl Default for Hypernet {
    fn default() -> (r: Hypernet)
        ensures
            r@ == NetModel::empty(),
            r.wire_names@ == Map::<Wire, String>::empty(),
            r.hints() == Seq::<Seq<char>>::empty(),
    {
        let r: Hypernet = Hypernet {
            wire_types: Vec::new(),
            complexes: Vec::new(),
            apps: Vec::new(),
            graph_inputs: Vec::new(),
            graph_outputs: Vec::new(),
            wire_names: BTreeMap::new(),
        };
        assert(r@ =~= NetModel::empty());
        assert(r.hints() =~= Seq::<Seq<char>>::empty());
        r
    }
}

impl Clone for Hypernet {
    fn clone(&self) -> (r: Hypernet)
        ensures
            r@ == self@,
            r.wire_names@ == self.wire_names@,
            r.hints() == self.hints(),
    {
        let r: Hypernet = Hypernet {
            wire_types: self.wire_types.clone(),
            complexes: self.complexes.clone(),
            apps: self.apps.clone(),
            graph_inputs: copy_wires(self.graph_inputs.as_slice()),
            graph_outputs: copy_wires(self.graph_outputs.as_slice()),
            wire_names: self.wire_names.clone(),
        };
        assert(types::views(r.wire_types@) =~= types::views(self.wire_types@));
        assert(types::views(r.complexes@) =~= types::views(self.complexes@));
        assert(types::views(r.apps@) =~= types::views(self.apps@));
        assert(r.hints() =~= self.hints());
        r
    }
}

impl Hypernet {
    /// The hints of the pooled complexes.
    pub open spec fn hints(&self) -> Seq<Seq<char>> {
        simplex::hints(self.complexes@)
    }

    /// The type of a wire, if it has one.
    pub fn wtype(&self, w: Wire) -> (r: Option<&TensorType>)
        ensures
            r is Some <==> self@.knows(w),
            r matches Some(t) ==> t@ == self@.wire_types[w as int],
    {
        if (w as usize) < self.wire_types.len() {
            Some(&self.wire_types[w as usize])
        } else {
            None
        }
    }
}

/// A model has the fields of its graph, each under its own name and item by item.
pub proof fn law_model_has_the_fields(h: Hypernet, i: int)
    ensures
        h@.graph_inputs == h.graph_inputs@,
        h@.graph_outputs == h.graph_outputs@,
        h@.wire_types.len() == h.wire_types@.len(),
        0 <= i < h.wire_types@.len() ==> h@.wire_types[i].dtype == h.wire_types@[i].dtype
            && h@.wire_types[i].shape == h.wire_types@[i].shape@,
        h@.complexes.len() == h.complexes@.len(),
        0 <= i < h.complexes@.len() ==> h@.complexes[i].amb_dim == h.complexes@[i].amb_dim
            && h@.complexes[i].simplices.len() == h.complexes@[i].simplices@.len()
            && h@.complexes[i].vertices.len() == h.complexes@[i].vertices@.len()
            && h@.complexes[i].cells.len() == h.complexes@[i].cells@.len(),
        h@.apps.len() == h.apps@.len(),
        0 <= i < h.apps@.len() ==> h@.apps[i] == h.apps@[i]@,
{
}

/// The wires that some application of a list reads.
pub open spec fn read_by(apps: Seq<app::AppModel>) -> Set<Wire> {
    Set::new(|w: Wire| exists|i: int| 0 <= i < apps.len() && #[trigger] apps[i].reads().contains(w))
}

/// The wires that a list of applications consumes.
pub fn consumed_wires(apps: &[App]) -> (r: BTreeSet<Wire>)
    ensures
        r@ == read_by(types::views(apps@)),
{
    let ghost models: Seq<app::AppModel> = types::views(apps@);
    let mut r: BTreeSet<Wire> = BTreeSet::new();
    let mut i: usize = 0;
    while i < apps.len()
        invariant
            i <= apps@.len(),
            models == types::views(apps@),
            forall|w: Wire| #[trigger]
                r@.contains(w) <==> exists|j: int|
                    0 <= j < i && #[trigger] models[j].reads().contains(w),
        decreases apps@.len() - i,
    {
        let reads: Vec<Wire> = apps[i].input_wires();
        let ghost before: Set<Wire> = r@;
        assert(reads@ == models[i as int].reads());
        let mut k: usize = 0;
        while k < reads.len()
            invariant
                k <= reads@.len(),
                forall|w: Wire| #[trigger]
                    r@.contains(w) <==> before.contains(w) || exists|j: int|
                        0 <= j < k && reads@[j] == w,
            decreases reads@.len() - k,
        {
            let ghost had: Set<Wire> = r@;
            r.insert(reads[k]);
            proof {
                assert forall|w: Wire| #[trigger] r@.contains(w) <==> before.contains(w) || exists|
                    j: int,
                |
                    0 <= j < k + 1 && reads@[j] == w by {
                    if had.contains(w) && !before.contains(w) {
                        let j: int = choose|j: int| 0 <= j < k && reads@[j] == w;
                        assert(0 <= j < k + 1 && reads@[j] == w);
                    }
                    if exists|j: int| 0 <= j < k + 1 && reads@[j] == w {
                        let j: int = choose|j: int| 0 <= j < k + 1 && reads@[j] == w;
                        if j < k {
                            assert(had.contains(w));
                        }
                    }
                    if w == reads@[k as int] {
                        assert(0 <= k < k + 1 && reads@[k as int] == w);
                    }
                }
            }
            k = k + 1;
        }
        proof {
            assert forall|w: Wire| #[trigger] r@.contains(w) <==> exists|j: int|
                0 <= j < i + 1 && #[trigger] models[j].reads().contains(w) by {
                if before.contains(w) {
                    let j: int = choose|j: int|
                        0 <= j < i && #[trigger] models[j].reads().contains(w);
                    assert(0 <= j < i + 1 && models[j].reads().contains(w));
                } else if r@.contains(w) {
                    let j: int = choose|j: int| 0 <= j < reads@.len() && reads@[j] == w;
                    assert(models[i as int].reads()[j] == w);
                    assert(models[i as int].reads().contains(w));
                }
                if exists|j: int| 0 <= j < i + 1 && #[trigger] models[j].reads().contains(w) {
                    let j: int = choose|j: int|
                        0 <= j < i + 1 && #[trigger] models[j].reads().contains(w);
                    if j < i {
                        assert(before.contains(w));
                    } else {
                        let l: int = choose|l: int| 0 <= l < reads@.len() && reads@[l] == w;
                        assert(0 <= l < reads@.len() && reads@[l] == w);
                    }
                }
            }
        }
        i = i + 1;
    }
    assert(r@ =~= read_by(models));
    r
}

} // verus!
