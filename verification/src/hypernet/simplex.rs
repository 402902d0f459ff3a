//! Simplicial complexes: the payloads of the `cell` box.

use super::app::{copy_rationals, same_rationals};
use super::scalar;
use super::scalar::WitRat;
use super::types;
use std::collections::BTreeSet;
use vstd::prelude::*;
use vstd::std_specs::cmp::OrdSpec;
use vstd::std_specs::iter::IteratorSpec;

verus! {

broadcast use {
    vstd::std_specs::btree::group_btree_axioms,
    vstd::laws_cmp::group_laws_cmp,
    vstd::laws_eq::group_laws_eq,
};

/// A set of vertex indices.
pub type VSet = BTreeSet<u32>;

/// The items rise strictly.
pub open spec fn ascending(s: Seq<u32>) -> bool {
    forall|i: int, j: int| 0 <= i < j < s.len() ==> s[i] < s[j]
}

/// A set is walked in ascending order.
proof fn lemma_iteration_ascends(s: &VSet)
    ensures
        ascending(vstd::std_specs::btree::spec_btree_keys_iter(s).remaining().unref()),
{
    let all = vstd::std_specs::btree::spec_btree_keys_iter(s).remaining();
    assert(vstd::std_specs::btree::increasing_seq(all));
    reveal(vstd::laws_eq::obeys_eq_spec_properties);
    reveal(vstd::laws_cmp::obeys_partial_cmp_spec_properties);
    reveal(vstd::laws_cmp::obeys_cmp_partial_ord);
    reveal(vstd::laws_cmp::obeys_cmp_ord);
    assert(vstd::laws_eq::obeys_eq::<&u32>());
    assert(vstd::laws_cmp::obeys_cmp::<&u32>());
    assert forall|i: int, j: int| 0 <= i < j < all.len() implies all.unref()[i]
        < all.unref()[j] by {
        assert(OrdSpec::cmp_spec(&all[i], &all[j]) is Less);
    }
}

/// The members of a set, ascending.
pub fn members(s: &VSet) -> (r: Vec<u32>)
    ensures
        ascending(r@),
        r@.to_set() == s@,
        r@.len() == s@.len(),
{
    let mut r: Vec<u32> = Vec::new();
    let ghost all = vstd::std_specs::btree::spec_btree_keys_iter(s).remaining();
    for x in it: s.iter()
        invariant
            it.seq() == all,
            r@.len() == it.index(),
            forall|i: int| 0 <= i < r@.len() ==> r@[i] == *all[i],
    {
        r.push(*x);
    }
    proof {
        assert(r@ =~= all.unref());
        lemma_iteration_ascends(s);
    }
    r
}

/// The members of a set are finitely many, and listed ones belong to it.
proof fn lemma_listed(s: Set<u32>, list: Seq<u32>)
    requires
        list.to_set() == s,
    ensures
        s.finite(),
        forall|i: int| 0 <= i < list.len() ==> s.contains(#[trigger] list[i]),
        forall|x: u32| #[trigger] s.contains(x) ==> exists|i: int| 0 <= i < list.len() && list[i] == x,
{
    assert forall|i: int| 0 <= i < list.len() implies s.contains(#[trigger] list[i]) by {
        assert(list.to_set().contains(list[i]));
    }
    assert forall|x: u32| #[trigger] s.contains(x) implies exists|i: int|
        0 <= i < list.len() && list[i] == x by {
        assert(list.to_set().contains(x));
    }
}

/// Whether every member of `a` belongs to `b`.
pub fn subset(a: &VSet, b: &VSet) -> (r: bool)
    ensures
        r == a@.subset_of(b@),
{
    let list: Vec<u32> = members(a);
    proof {
        lemma_listed(a@, list@);
    }
    let mut i: usize = 0;
    while i < list.len()
        invariant
            i <= list@.len(),
            forall|j: int| 0 <= j < list@.len() ==> a@.contains(#[trigger] list@[j]),
            forall|j: int| 0 <= j < i ==> b@.contains(#[trigger] list@[j]),
        decreases list@.len() - i,
    {
        if !b.contains(&list[i]) {
            assert(a@.contains(list@[i as int]));
            return false;
        }
        i = i + 1;
    }
    assert forall|x: u32| a@.contains(x) implies b@.contains(x) by {
        let j: int = choose|j: int| 0 <= j < list@.len() && list@[j] == x;
        assert(b@.contains(list@[j]));
    }
    true
}

/// Whether two sets have the same members.
pub fn same_set(a: &VSet, b: &VSet) -> (r: bool)
    ensures
        r == (a@ == b@),
{
    let r: bool = subset(a, b) && subset(b, a);
    assert(r ==> a@ =~= b@);
    r
}

/// The common members of two sets.
pub fn intersection(a: &VSet, b: &VSet) -> (r: VSet)
    ensures
        r@ == a@.intersect(b@),
{
    let list: Vec<u32> = members(a);
    proof {
        lemma_listed(a@, list@);
    }
    let mut r: VSet = VSet::new();
    let mut i: usize = 0;
    while i < list.len()
        invariant
            i <= list@.len(),
            forall|j: int| 0 <= j < list@.len() ==> a@.contains(#[trigger] list@[j]),
            forall|x: u32| #[trigger]
                r@.contains(x) <==> b@.contains(x) && exists|j: int| 0 <= j < i && list@[j] == x,
        decreases list@.len() - i,
    {
        let ghost before: Set<u32> = r@;
        if b.contains(&list[i]) {
            r.insert(list[i]);
        }
        proof {
            let y: u32 = list@[i as int];
            assert forall|x: u32| #[trigger] r@.contains(x) <==> b@.contains(x) && exists|j: int|
                0 <= j < i + 1 && list@[j] == x by {
                if before.contains(x) {
                    let j: int = choose|j: int| 0 <= j < i && list@[j] == x;
                    assert(0 <= j < i + 1 && list@[j] == x);
                }
                if b@.contains(x) && exists|j: int| 0 <= j < i + 1 && list@[j] == x {
                    let j: int = choose|j: int| 0 <= j < i + 1 && list@[j] == x;
                    if j < i {
                        assert(before.contains(x));
                    }
                }
                if x == y {
                    assert(list@[i as int] == x);
                }
            }
        }
        i = i + 1;
    }
    assert(r@ =~= a@.intersect(b@)) by {
        assert forall|x: u32| r@.contains(x) <==> a@.intersect(b@).contains(x) by {
            if a@.contains(x) {
                let j: int = choose|j: int| 0 <= j < list@.len() && list@[j] == x;
                assert(0 <= j < i && list@[j] == x);
            }
        }
    }
    r
}

/// A complex, as the contracts speak of it.
#[verifier::ext_equal]
pub struct ComplexModel {
    /// The ambient dimension.
    pub amb_dim: u32,
    /// The vertex coordinates.
    pub vertices: Seq<Seq<scalar::Ratio>>,
    /// The simplices.
    pub simplices: Seq<Set<u32>>,
    /// The cells: a simplex and its extension vertices.
    pub cells: Seq<(Set<u32>, Set<u32>)>,
}

/// A simplicial complex: the payload of a `cell` application.
///
/// A cell is a simplex and a set of extension vertices: the points that are affine
/// combinations of the simplex's vertices, with weights that are not negative on the other
/// vertices and not positive on the extension vertices.
#[derive(Debug)]
pub struct SimpC {
    /// The ambient dimension.
    pub amb_dim: u32,
    /// Vertex coordinates, `amb_dim` exact rationals each.
    pub vertices: Vec<Vec<WitRat>>,
    /// The simplices.
    pub simplices: Vec<VSet>,
    /// The cells: a simplex and its extension vertices.
    pub cells: Vec<(VSet, VSet)>,
    /// A hint for evaluators: not compared and not serialized.
    pub hint: String,
}

/// The hints of a list of complexes.
pub open spec fn hints(cs: Seq<SimpC>) -> Seq<Seq<char>> {
    Seq::new(cs.len(), |i: int| cs[i].hint@)
}

/// The views of the items of a sequence of lists.
pub open spec fn lists<T: View>(s: Seq<Vec<T>>) -> Seq<Seq<T::V>> {
    Seq::new(s.len(), |i: int| types::views(s[i]@))
}

impl View for SimpC {
    type V = ComplexModel;

    open spec fn view(&self) -> ComplexModel {
        ComplexModel {
            amb_dim: self.amb_dim,
            vertices: lists(self.vertices@),
            simplices: types::views(self.simplices@),
            cells: types::views(self.cells@),
        }
    }
}

/// A model has the fields of its complex, each under its own name: coordinates by vertex and
/// axis, simplices by their members, cells by their masks and extension vertices.
pub proof fn law_model_has_the_fields(c: SimpC, i: int, k: int)
    ensures
        c@.amb_dim == c.amb_dim,
        c@.vertices.len() == c.vertices@.len(),
        0 <= i < c.vertices@.len() ==> c@.vertices[i].len() == c.vertices@[i]@.len(),
        0 <= i < c.vertices@.len() && 0 <= k < c.vertices@[i]@.len() ==> c@.vertices[i][k].num
            == c.vertices@[i]@[k].0@ && c@.vertices[i][k].den == c.vertices@[i]@[k].1@,
        c@.simplices.len() == c.simplices@.len(),
        0 <= i < c.simplices@.len() ==> c@.simplices[i] == c.simplices@[i]@,
        c@.cells.len() == c.cells@.len(),
        0 <= i < c.cells@.len() ==> c@.cells[i].0 == c.cells@[i].0@ && c@.cells[i].1
            == c.cells@[i].1@,
{
}

/// A defect of a complex.
#[derive(Debug, Clone, Copy, PartialEq, Eq, Structural)]
pub enum SimpCViolation {
    /// A vertex does not have as many coordinates as the ambient dimension.
    VertexDimMismatch {
        /// The vertex.
        vertex: u32,
        /// Its number of coordinates.
        len: u32,
        /// The ambient dimension.
        amb_dim: u32,
    },
    /// A simplex is empty.
    EmptySimplex {
        /// The simplex.
        simplex: u32,
    },
    /// A simplex names a vertex that does not exist.
    VertexOutOfRange {
        /// The simplex.
        simplex: u32,
        /// The vertex.
        vertex: u32,
    },
    /// A simplex without one of its vertices is not a simplex.
    MissingFace {
        /// The simplex.
        simplex: u32,
        /// The vertex.
        removed_vertex: u32,
    },
    /// Two simplices meet in a set that is not a simplex.
    MissingIntersection {
        /// The first simplex.
        simplex_a: u32,
        /// The second simplex.
        simplex_b: u32,
    },
    /// The mask of a cell is not a simplex.
    CellMaskNotSimplex {
        /// The cell.
        cell: u32,
    },
    /// An extension vertex of a cell does not belong to its mask.
    CellExtNotSubset {
        /// The cell.
        cell: u32,
    },
    /// Every vertex of a cell is an extension vertex.
    CellNoCoreVertex {
        /// The cell.
        cell: u32,
    },
}

/// The lists that `f` gives for the places below `n`, one behind the other.
pub open spec fn flat<T>(f: spec_fn(int) -> Seq<T>, n: int) -> Seq<T>
    decreases n,
{
    if n <= 0 {
        Seq::empty()
    } else {
        flat(f, n - 1) + f(n - 1)
    }
}

/// Places with an empty list add nothing.
pub proof fn lemma_flat_skip<T>(f: spec_fn(int) -> Seq<T>, a: int, b: int)
    requires
        0 <= a <= b,
        forall|i: int| a <= i < b ==> (#[trigger] f(i)).len() == 0,
    ensures
        flat(f, b) == flat(f, a),
    decreases b - a,
{
    if a < b {
        lemma_flat_skip(f, a, b - 1);
        assert(f(b - 1).len() == 0);
        assert(flat(f, b) =~= flat(f, b - 1));
    }
}

/// Where every list is empty, nothing is listed, and only there.
pub proof fn lemma_flat_empty<T>(f: spec_fn(int) -> Seq<T>, n: int)
    ensures
        flat(f, n).len() == 0 <==> (forall|i: int| 0 <= i < n ==> (#[trigger] f(i)).len() == 0),
    decreases n,
{
    if n > 0 {
        lemma_flat_empty(f, n - 1);
    }
}

/// The lowest member of a set from `n` on.
pub open spec fn lowest_from(s: Set<u32>, n: int) -> u32 {
    choose|x: u32| is_lowest_from(s, n, x)
}

/// `x` is the lowest member of `s` from `n` on.
pub open spec fn is_lowest_from(s: Set<u32>, n: int, x: u32) -> bool {
    &&& s.contains(x) && x >= n
    &&& forall|y: u32| #[trigger] s.contains(y) && y >= n ==> x <= y
}

impl ComplexModel {
    /// `s` is one of the simplices.
    pub open spec fn has(self, s: Set<u32>) -> bool {
        exists|i: int| 0 <= i < self.simplices.len() && #[trigger] self.simplices[i] == s
    }

    /// What is wrong with vertex `i`.
    pub open spec fn vertex_faults(self) -> spec_fn(int) -> Seq<SimpCViolation> {
        |i: int|
            if self.vertices[i].len() != self.amb_dim {
                seq![
                    SimpCViolation::VertexDimMismatch {
                        vertex: i as u32,
                        len: self.vertices[i].len() as u32,
                        amb_dim: self.amb_dim,
                    },
                ]
            } else {
                Seq::empty()
            }
    }

    /// Which face of simplex `i` is missing without vertex `v`.
    pub open spec fn face_faults(self, i: int) -> spec_fn(int) -> Seq<SimpCViolation> {
        |v: int|
            if self.simplices[i].contains(v as u32) && v <= u32::MAX && !self.has(
                self.simplices[i].remove(v as u32),
            ) {
                seq![
                    SimpCViolation::MissingFace { simplex: i as u32, removed_vertex: v as u32 },
                ]
            } else {
                Seq::empty()
            }
    }

    /// A member of simplex `i` names no vertex.
    pub open spec fn strays(self, i: int) -> bool {
        exists|x: u32| #[trigger] self.simplices[i].contains(x) && x >= self.vertices.len()
    }

    /// What is wrong with simplex `i`: it is empty, or it names a vertex that does not
    /// exist, or its faces are missing.
    pub open spec fn simplex_faults(self) -> spec_fn(int) -> Seq<SimpCViolation> {
        |i: int|
            if self.simplices[i].len() == 0 {
                seq![SimpCViolation::EmptySimplex { simplex: i as u32 }]
            } else if self.strays(i) {
                seq![
                    SimpCViolation::VertexOutOfRange {
                        simplex: i as u32,
                        vertex: lowest_from(self.simplices[i], self.vertices.len() as int),
                    },
                ]
            } else if self.simplices[i].len() > 1 {
                flat(self.face_faults(i), self.vertices.len() as int)
            } else {
                Seq::empty()
            }
    }

    /// What is wrong between simplices `i` and `j`.
    pub open spec fn pair_faults(self, i: int) -> spec_fn(int) -> Seq<SimpCViolation> {
        |j: int|
            if !(self.simplices[i].intersect(self.simplices[j]) =~= Set::empty()) && !self.has(
                self.simplices[i].intersect(self.simplices[j]),
            ) {
                seq![
                    SimpCViolation::MissingIntersection {
                        simplex_a: i as u32,
                        simplex_b: j as u32,
                    },
                ]
            } else {
                Seq::empty()
            }
    }

    /// What is wrong between simplex `i` and the others.
    pub open spec fn conformity_faults(self) -> spec_fn(int) -> Seq<SimpCViolation> {
        |i: int| flat(self.pair_faults(i), self.simplices.len() as int)
    }

    /// What is wrong with cell `i`.
    pub open spec fn cell_faults(self) -> spec_fn(int) -> Seq<SimpCViolation> {
        |i: int|
            {
                let (mask, ext) = self.cells[i];
                let a = if !self.has(mask) {
                    seq![SimpCViolation::CellMaskNotSimplex { cell: i as u32 }]
                } else {
                    Seq::empty()
                };
                let b = if !ext.subset_of(mask) {
                    seq![SimpCViolation::CellExtNotSubset { cell: i as u32 }]
                } else {
                    Seq::empty()
                };
                let c = if mask.subset_of(ext) {
                    seq![SimpCViolation::CellNoCoreVertex { cell: i as u32 }]
                } else {
                    Seq::empty()
                };
                a + b + c
            }
    }

    /// Everything that is wrong with the complex: its vertices, then its simplices, then
    /// how they meet, then its cells.
    pub open spec fn violations(self) -> Seq<SimpCViolation> {
        flat(self.vertex_faults(), self.vertices.len() as int) + flat(
            self.simplex_faults(),
            self.simplices.len() as int,
        ) + flat(self.conformity_faults(), self.simplices.len() as int) + flat(
            self.cell_faults(),
            self.cells.len() as int,
        )
    }

    /// Every vertex has as many coordinates as the ambient dimension; simplices are nonempty
    /// sets of vertices, closed under faces and under nonempty intersections; every cell is
    /// a simplex with extension vertices among its own, and not all of them.
    pub open spec fn sound(self) -> bool {
        &&& forall|i: int|
            0 <= i < self.vertices.len() ==> (#[trigger] self.vertices[i]).len() == self.amb_dim
        &&& forall|i: int|
            0 <= i < self.simplices.len() ==> (#[trigger] self.simplices[i]).len() > 0
        &&& forall|i: int, x: u32|
            0 <= i < self.simplices.len() && #[trigger] self.simplices[i].contains(x) ==> x
                < self.vertices.len()
        &&& forall|i: int, x: u32|
            0 <= i < self.simplices.len() && self.simplices[i].len() > 1
                && #[trigger] self.simplices[i].contains(x) ==> self.has(
                self.simplices[i].remove(x),
            )
        &&& forall|i: int, j: int|
            0 <= i < self.simplices.len() && 0 <= j < self.simplices.len() ==> {
                let meet = #[trigger] self.simplices[i].intersect(self.simplices[j]);
                meet =~= Set::empty() || self.has(meet)
            }
        &&& forall|i: int|
            0 <= i < self.cells.len() ==> {
                let (mask, ext) = #[trigger] self.cells[i];
                self.has(mask) && ext.subset_of(mask) && !mask.subset_of(ext)
            }
    }
}

/// A complex has no violations exactly where it is sound.
pub proof fn law_no_violations_iff_sound(c: ComplexModel)
    ensures
        c.violations().len() == 0 <==> c.sound(),
{
    let n: int = c.vertices.len() as int;
    let m: int = c.simplices.len() as int;
    lemma_flat_empty(c.vertex_faults(), n);
    lemma_flat_empty(c.simplex_faults(), m);
    lemma_flat_empty(c.conformity_faults(), m);
    lemma_flat_empty(c.cell_faults(), c.cells.len() as int);
    assert forall|i: int| 0 <= i < m implies ((#[trigger] c.conformity_faults()(i)).len() == 0 <==> (
    forall|j: int| 0 <= j < m ==> (#[trigger] c.pair_faults(i)(j)).len() == 0)) by {
        lemma_flat_empty(c.pair_faults(i), m);
    }
    assert forall|i: int| 0 <= i < m implies (flat(#[trigger] c.face_faults(i), n).len() == 0 <==> (
    forall|v: int| 0 <= v < n ==> (#[trigger] c.face_faults(i)(v)).len() == 0)) by {
        lemma_flat_empty(c.face_faults(i), n);
    }
    if c.violations().len() == 0 {
        assert forall|i: int| 0 <= i < n implies (#[trigger] c.vertices[i]).len() == c.amb_dim by {
            assert(c.vertex_faults()(i).len() == 0);
        }
        assert forall|i: int| 0 <= i < m implies (#[trigger] c.simplices[i]).len() > 0 by {
            assert(c.simplex_faults()(i).len() == 0);
        }
        assert forall|i: int, x: u32|
            0 <= i < m && #[trigger] c.simplices[i].contains(x) implies x < n by {
            assert(c.simplex_faults()(i).len() == 0);
        }
        assert forall|i: int, x: u32|
            0 <= i < m && c.simplices[i].len() > 1
                && #[trigger] c.simplices[i].contains(x) implies c.has(c.simplices[i].remove(x)) by {
            assert(c.simplex_faults()(i).len() == 0);
            assert(flat(c.face_faults(i), n).len() == 0);
            assert(c.face_faults(i)(x as int).len() == 0);
        }
        assert forall|i: int, j: int| 0 <= i < m && 0 <= j < m implies {
            let meet = #[trigger] c.simplices[i].intersect(c.simplices[j]);
            meet =~= Set::empty() || c.has(meet)
        } by {
            assert(c.conformity_faults()(i).len() == 0);
            assert(c.pair_faults(i)(j).len() == 0);
        }
        assert forall|i: int| 0 <= i < c.cells.len() implies {
            let (mask, ext) = #[trigger] c.cells[i];
            c.has(mask) && ext.subset_of(mask) && !mask.subset_of(ext)
        } by {
            assert(c.cell_faults()(i).len() == 0);
        }
    }
    if c.sound() {
        assert forall|i: int| 0 <= i < n implies (#[trigger] c.vertex_faults()(i)).len() == 0 by {
            assert(c.vertices[i].len() == c.amb_dim);
        }
        assert forall|i: int| 0 <= i < m implies (#[trigger] c.simplex_faults()(i)).len() == 0 by {
            assert(c.simplices[i].len() > 0);
            assert(!c.strays(i));
            if c.simplices[i].len() > 1 {
                assert forall|v: int| 0 <= v < n implies (#[trigger] c.face_faults(i)(v)).len()
                    == 0 by {
                    if c.simplices[i].contains(v as u32) {
                        assert(c.has(c.simplices[i].remove(v as u32)));
                    }
                }
            }
            assert(c.simplices[i].len() > 1 ==> flat(c.face_faults(i), n).len() == 0);
        }
        assert forall|i: int| 0 <= i < m implies (#[trigger] c.conformity_faults()(i)).len() == 0 by {
            assert forall|j: int| 0 <= j < m implies (#[trigger] c.pair_faults(i)(j)).len() == 0 by {
                let meet = c.simplices[i].intersect(c.simplices[j]);
                assert(meet =~= Set::empty() || c.has(meet));
            }
        }
        assert forall|i: int| 0 <= i < c.cells.len() implies (#[trigger] c.cell_faults()(i)).len()
            == 0 by {
            let (mask, ext) = c.cells[i];
            assert(c.has(mask) && ext.subset_of(mask) && !mask.subset_of(ext));
        }
    }
}

/// A set of indices below a bound is finite.
pub proof fn lemma_bounded_finite(s: Set<u32>, n: int)
    requires
        forall|x: u32| #[trigger] s.contains(x) ==> x < n,
    ensures
        s.finite(),
    decreases n,
{
    if n <= 0 {
        assert(s =~= Set::empty());
    } else {
        let x: u32 = (n - 1) as u32;
        if s.contains(x) && x == n - 1 {
            let t: Set<u32> = s.remove(x);
            lemma_bounded_finite(t, n - 1);
            assert(s =~= t.insert(x));
        } else {
            assert forall|y: u32| #[trigger] s.contains(y) implies y < n - 1 by {
                if y == n - 1 {
                    assert(y == x);
                }
            }
            lemma_bounded_finite(s, n - 1);
        }
    }
}

/// The simplices of a sound complex are closed downward: every nonempty subset of a simplex
/// is one.
pub proof fn law_sound_is_downward_closed(c: ComplexModel, i: int, t: Set<u32>)
    requires
        c.sound(),
        0 <= i < c.simplices.len(),
        t.subset_of(c.simplices[i]),
        exists|x: u32| t.contains(x),
    ensures
        c.has(t),
    decreases c.simplices[i].len(),
{
    let s: Set<u32> = c.simplices[i];
    lemma_bounded_finite(s, c.vertices.len() as int);
    if s =~= t {
        assert(c.simplices[i] == t);
    } else {
        let x: u32 = choose|x: u32| #[trigger] s.contains(x) && !t.contains(x);
        let y: u32 = choose|y: u32| t.contains(y);
        assert(s.contains(x) && s.contains(y) && x != y);
        assert(s.len() > 1) by {
            assert(s.remove(x).contains(y));
            assert(s.remove(x).len() > 0);
        }
        assert(c.has(c.simplices[i].remove(x)));
        let k: int = choose|k: int|
            0 <= k < c.simplices.len() && #[trigger] c.simplices[k] == s.remove(x);
        law_sound_is_downward_closed(c, k, t);
    }
}

impl SimpC {
    /// A complex without a hint.
    pub fn new(
        amb_dim: u32,
        vertices: Vec<Vec<WitRat>>,
        simplices: Vec<VSet>,
        cells: Vec<(VSet, VSet)>,
    ) -> (r: SimpC)
        ensures
            r@ == (ComplexModel {
                amb_dim,
                vertices: lists(vertices@),
                simplices: types::views(simplices@),
                cells: types::views(cells@),
            }),
            r.hint@ == Seq::<char>::empty(),
    {
        SimpC { amb_dim, vertices, simplices, cells, hint: String::new() }
    }

    /// Whether a set is one of the simplices.
    pub fn has_simplex(&self, s: &VSet) -> (r: bool)
        ensures
            r == self@.has(s@),
    {
        let mut i: usize = 0;
        while i < self.simplices.len()
            invariant
                i <= self.simplices@.len(),
                forall|j: int| 0 <= j < i ==> #[trigger] self@.simplices[j] != s@,
            decreases self.simplices@.len() - i,
        {
            if same_set(&self.simplices[i], s) {
                assert(self@.simplices[i as int] == s@);
                return true;
            }
            i = i + 1;
        }
        false
    }

    /// Appends what is wrong with the vertices.
    fn check_vertices(&self, v: &mut Vec<SimpCViolation>)
        ensures
            final(v)@ == old(v)@ + flat(self@.vertex_faults(), self@.vertices.len() as int),
    {
        let ghost start: Seq<SimpCViolation> = v@;
        let mut i: usize = 0;
        assert(v@ =~= start + flat(self@.vertex_faults(), 0));
        while i < self.vertices.len()
            invariant
                i <= self.vertices@.len(),
                v@ == start + flat(self@.vertex_faults(), i as int),
            decreases self.vertices@.len() - i,
        {
            let len: usize = self.vertices[i].len();
            assert(self@.vertices[i as int].len() == len);
            if len != self.amb_dim as usize {
                v.push(
                    SimpCViolation::VertexDimMismatch {
                        vertex: i as u32,
                        len: len as u32,
                        amb_dim: self.amb_dim,
                    },
                );
            }
            i = i + 1;
            assert(v@ =~= start + flat(self@.vertex_faults(), i as int));
        }
    }

    /// Appends which faces of simplex `si` are missing.
    fn check_faces(&self, si: usize, list: &Vec<u32>, v: &mut Vec<SimpCViolation>)
        requires
            si < self.simplices@.len(),
            ascending(list@),
            list@.to_set() == self.simplices@[si as int]@,
            !self@.strays(si as int),
        ensures
            final(v)@ == old(v)@ + flat(
                self@.face_faults(si as int),
                self@.vertices.len() as int,
            ),
    {
        let ghost start: Seq<SimpCViolation> = v@;
        let ghost s: Set<u32> = self.simplices@[si as int]@;
        let ghost f = self@.face_faults(si as int);
        let ghost n: int = self@.vertices.len() as int;
        let ghost mut done: int = 0;
        proof {
            lemma_listed(s, list@);
            assert(self@.simplices[si as int] == s);
        }
        let mut i: usize = 0;
        assert(v@ =~= start + flat(f, 0));
        while i < list.len()
            invariant
                si < self.simplices@.len(),
                i <= list@.len(),
                s == self.simplices@[si as int]@,
                s == self@.simplices[si as int],
                n == self@.vertices.len(),
                f == self@.face_faults(si as int),
                !self@.strays(si as int),
                ascending(list@),
                forall|j: int| 0 <= j < list@.len() ==> s.contains(#[trigger] list@[j]),
                forall|x: u32| #[trigger] s.contains(x) ==> exists|j: int|
                    0 <= j < list@.len() && list@[j] == x,
                0 <= done <= n,
                forall|j: int| i <= j < list@.len() ==> done <= #[trigger] list@[j],
                forall|x: u32| #[trigger] s.contains(x) && x >= done ==> exists|j: int|
                    i <= j < list@.len() && list@[j] == x,
                v@ == start + flat(f, done),
            decreases list@.len() - i,
        {
            let v0: u32 = list[i];
            proof {
                assert(s.contains(v0));
                assert(self@.simplices[si as int].contains(v0));
                assert forall|x: int| done <= x < v0 implies (#[trigger] f(x)).len() == 0 by {
                    if s.contains(x as u32) {
                        let j: int = choose|j: int| i <= j < list@.len() && list@[j] == x as u32;
                        assert(list@[i as int] <= list@[j]);
                    }
                }
                lemma_flat_skip(f, done, v0 as int);
            }
            let mut face: VSet = self.simplices[si].clone();
            face.remove(&v0);
            assert(face@ =~= s.remove(v0));
            if !self.has_simplex(&face) {
                v.push(SimpCViolation::MissingFace { simplex: si as u32, removed_vertex: v0 });
            }
            proof {
                assert forall|x: u32| #[trigger]
                    s.contains(x) && x >= v0 + 1 implies exists|j: int|
                    i + 1 <= j < list@.len() && list@[j] == x by {
                    let j: int = choose|j: int| i <= j < list@.len() && list@[j] == x;
                    assert(i + 1 <= j < list@.len() && list@[j] == x);
                }
                done = v0 + 1;
                assert(v@ =~= start + flat(f, done));
            }
            i = i + 1;
        }
        proof {
            assert forall|x: int| done <= x < n implies (#[trigger] f(x)).len() == 0 by {
                if s.contains(x as u32) && x <= u32::MAX {
                    let j: int = choose|j: int| i <= j < list@.len() && list@[j] == x as u32;
                }
            }
            lemma_flat_skip(f, done, n);
        }
    }

    /// Appends what is wrong with simplex `si`.
    fn check_simplex(&self, si: usize, v: &mut Vec<SimpCViolation>)
        requires
            si < self.simplices@.len(),
        ensures
            final(v)@ == old(v)@ + self@.simplex_faults()(si as int),
    {
        let ghost start: Seq<SimpCViolation> = v@;
        let ghost s: Set<u32> = self.simplices@[si as int]@;
        let n: usize = self.vertices.len();
        let list: Vec<u32> = members(&self.simplices[si]);
        proof {
            lemma_listed(s, list@);
            assert(self@.simplices[si as int] == s);
        }
        if list.len() == 0 {
            v.push(SimpCViolation::EmptySimplex { simplex: si as u32 });
            assert(v@ =~= start + self@.simplex_faults()(si as int));
            return ;
        }
        let mut i: usize = 0;
        while i < list.len()
            invariant
                i <= list@.len(),
                n == self@.vertices.len(),
                s == self@.simplices[si as int],
                s.len() > 0,
                ascending(list@),
                start == old(v)@,
                v@ == start,
                forall|j: int| 0 <= j < list@.len() ==> s.contains(#[trigger] list@[j]),
                forall|x: u32| #[trigger] s.contains(x) ==> exists|j: int|
                    0 <= j < list@.len() && list@[j] == x,
                forall|j: int| 0 <= j < i ==> #[trigger] list@[j] < n,
            decreases list@.len() - i,
        {
            let bad: u32 = list[i];
            if bad as usize >= n {
                proof {
                    assert(s.contains(bad));
                    assert(self@.simplices[si as int].contains(bad));
                    assert(is_lowest_from(s, n as int, bad)) by {
                        assert forall|y: u32| #[trigger] s.contains(y) && y >= n implies bad
                            <= y by {
                            let j: int = choose|j: int| 0 <= j < list@.len() && list@[j] == y;
                            assert(j >= i);
                        }
                    }
                    let low: u32 = lowest_from(s, n as int);
                    assert(is_lowest_from(s, n as int, low));
                    assert(s.contains(low));
                    assert(low == bad);
                }
                v.push(SimpCViolation::VertexOutOfRange { simplex: si as u32, vertex: bad });
                assert(v@ =~= start + self@.simplex_faults()(si as int));
                return ;
            }
            i = i + 1;
        }
        assert(!self@.strays(si as int)) by {
            if self@.strays(si as int) {
                let x: u32 = choose|x: u32| #[trigger]
                    self@.simplices[si as int].contains(x) && x >= self@.vertices.len();
                let j: int = choose|j: int| 0 <= j < list@.len() && list@[j] == x;
                assert(list@[j] < n);
            }
        }
        if list.len() > 1 {
            self.check_faces(si, &list, v);
        }
        assert(v@ =~= start + self@.simplex_faults()(si as int));
    }

    /// Appends where simplex `i` meets another outside the complex.
    fn check_meets(&self, i: usize, v: &mut Vec<SimpCViolation>)
        requires
            i < self.simplices@.len(),
        ensures
            final(v)@ == old(v)@ + self@.conformity_faults()(i as int),
    {
        let ghost start: Seq<SimpCViolation> = v@;
        let ghost f = self@.pair_faults(i as int);
        let mut j: usize = 0;
        assert(v@ =~= start + flat(f, 0));
        while j < self.simplices.len()
            invariant
                i < self.simplices@.len(),
                j <= self.simplices@.len(),
                f == self@.pair_faults(i as int),
                v@ == start + flat(f, j as int),
            decreases self.simplices@.len() - j,
        {
            let inter: VSet = intersection(&self.simplices[i], &self.simplices[j]);
            assert(inter@ == self@.simplices[i as int].intersect(self@.simplices[j as int]));
            if !inter.is_empty() && !self.has_simplex(&inter) {
                v.push(
                    SimpCViolation::MissingIntersection {
                        simplex_a: i as u32,
                        simplex_b: j as u32,
                    },
                );
            }
            j = j + 1;
            assert(v@ =~= start + flat(f, j as int));
        }
    }

    /// Appends what is wrong with cell `ci`.
    fn check_cell(&self, ci: usize, v: &mut Vec<SimpCViolation>)
        requires
            ci < self.cells@.len(),
        ensures
            final(v)@ == old(v)@ + self@.cell_faults()(ci as int),
    {
        let ghost start: Seq<SimpCViolation> = v@;
        let mask: &VSet = &self.cells[ci].0;
        let ext: &VSet = &self.cells[ci].1;
        assert(self@.cells[ci as int] == (mask@, ext@));
        if !self.has_simplex(mask) {
            v.push(SimpCViolation::CellMaskNotSimplex { cell: ci as u32 });
        }
        if !subset(ext, mask) {
            v.push(SimpCViolation::CellExtNotSubset { cell: ci as u32 });
        }
        if subset(mask, ext) {
            v.push(SimpCViolation::CellNoCoreVertex { cell: ci as u32 });
        }
        assert(v@ =~= start + self@.cell_faults()(ci as int));
    }

    /// Everything that is wrong with the complex, in order; nothing where it is sound.
    pub fn validate(&self) -> (r: Vec<SimpCViolation>)
        ensures
            r@ == self@.violations(),
    {
        let mut v: Vec<SimpCViolation> = Vec::new();
        self.check_vertices(&mut v);
        let ghost one: Seq<SimpCViolation> = v@;
        let m: usize = self.simplices.len();
        let mut i: usize = 0;
        assert(v@ =~= one + flat(self@.simplex_faults(), 0));
        while i < m
            invariant
                i <= m == self.simplices@.len(),
                v@ == one + flat(self@.simplex_faults(), i as int),
            decreases m - i,
        {
            self.check_simplex(i, &mut v);
            i = i + 1;
            assert(v@ =~= one + flat(self@.simplex_faults(), i as int));
        }
        let ghost two: Seq<SimpCViolation> = v@;
        let mut j: usize = 0;
        assert(v@ =~= two + flat(self@.conformity_faults(), 0));
        while j < m
            invariant
                j <= m == self.simplices@.len(),
                v@ == two + flat(self@.conformity_faults(), j as int),
            decreases m - j,
        {
            self.check_meets(j, &mut v);
            j = j + 1;
            assert(v@ =~= two + flat(self@.conformity_faults(), j as int));
        }
        let ghost three: Seq<SimpCViolation> = v@;
        let mut c: usize = 0;
        assert(v@ =~= three + flat(self@.cell_faults(), 0));
        while c < self.cells.len()
            invariant
                c <= self.cells@.len(),
                v@ == three + flat(self@.cell_faults(), c as int),
            decreases self.cells@.len() - c,
        {
            self.check_cell(c, &mut v);
            c = c + 1;
            assert(v@ =~= three + flat(self@.cell_faults(), c as int));
        }
        assert(v@ =~= self@.violations());
        v
    }
}

/// Whether two lists of vertices are the same.
fn same_vertices(a: &Vec<Vec<WitRat>>, b: &Vec<Vec<WitRat>>) -> (r: bool)
    ensures
        r == (lists(a@) == lists(b@)),
{
    if a.len() != b.len() {
        assert(lists(a@).len() != lists(b@).len());
        return false;
    }
    let mut i: usize = 0;
    while i < a.len()
        invariant
            a@.len() == b@.len(),
            i <= a@.len(),
            forall|j: int|
                0 <= j < i ==> #[trigger] lists(a@)[j] == lists(b@)[j],
        decreases a@.len() - i,
    {
        if !same_rationals(a[i].as_slice(), b[i].as_slice()) {
            assert(lists(a@)[i as int] != lists(b@)[i as int]);
            return false;
        }
        i = i + 1;
    }
    assert(lists(a@) =~= lists(b@));
    true
}

/// Whether two lists of sets are the same.
fn same_sets(a: &Vec<VSet>, b: &Vec<VSet>) -> (r: bool)
    ensures
        r == (types::views(a@) == types::views(b@)),
{
    if a.len() != b.len() {
        assert(types::views(a@).len() != types::views(b@).len());
        return false;
    }
    let mut i: usize = 0;
    while i < a.len()
        invariant
            a@.len() == b@.len(),
            i <= a@.len(),
            forall|j: int|
                0 <= j < i ==> #[trigger] types::views(a@)[j] == types::views(b@)[j],
        decreases a@.len() - i,
    {
        if !same_set(&a[i], &b[i]) {
            assert(types::views(a@)[i as int] != types::views(b@)[i as int]);
            return false;
        }
        i = i + 1;
    }
    assert(types::views(a@) =~= types::views(b@));
    true
}

/// Whether two lists of cells are the same.
fn same_cells(a: &Vec<(VSet, VSet)>, b: &Vec<(VSet, VSet)>) -> (r: bool)
    ensures
        r == (types::views(a@) == types::views(b@)),
{
    if a.len() != b.len() {
        assert(types::views(a@).len() != types::views(b@).len());
        return false;
    }
    let mut i: usize = 0;
    while i < a.len()
        invariant
            a@.len() == b@.len(),
            i <= a@.len(),
            forall|j: int|
                0 <= j < i ==> #[trigger] types::views(a@)[j] == types::views(b@)[j],
        decreases a@.len() - i,
    {
        if !same_set(&a[i].0, &b[i].0) || !same_set(&a[i].1, &b[i].1) {
            assert(types::views(a@)[i as int] != types::views(b@)[i as int]);
            return false;
        }
        i = i + 1;
    }
    assert(types::views(a@) =~= types::views(b@));
    true
}

/// A copy of a list of lists of rationals.
fn copy_vertices(a: &Vec<Vec<WitRat>>) -> (r: Vec<Vec<WitRat>>)
    ensures
        lists(r@) == lists(a@),
{
    let mut r: Vec<Vec<WitRat>> = Vec::new();
    let mut i: usize = 0;
    while i < a.len()
        invariant
            i <= a@.len(),
            r@.len() == i,
            forall|j: int| 0 <= j < i ==> types::views(#[trigger] r@[j]@) == types::views(a@[j]@),
        decreases a@.len() - i,
    {
        r.push(copy_rationals(a[i].as_slice()));
        i = i + 1;
    }
    assert(lists(r@) =~= lists(a@));
    r
}

/// A copy of a list of sets.
fn copy_sets(a: &Vec<VSet>) -> (r: Vec<VSet>)
    ensures
        types::views(r@) == types::views(a@),
{
    let mut r: Vec<VSet> = Vec::new();
    let mut i: usize = 0;
    while i < a.len()
        invariant
            i <= a@.len(),
            r@.len() == i,
            forall|j: int| 0 <= j < i ==> (#[trigger] r@[j])@ == a@[j]@,
        decreases a@.len() - i,
    {
        r.push(a[i].clone());
        i = i + 1;
    }
    assert(types::views(r@) =~= types::views(a@));
    r
}

/// A copy of a list of cells.
fn copy_cells(a: &Vec<(VSet, VSet)>) -> (r: Vec<(VSet, VSet)>)
    ensures
        types::views(r@) == types::views(a@),
{
    let mut r: Vec<(VSet, VSet)> = Vec::new();
    let mut i: usize = 0;
    while i < a.len()
        invariant
            i <= a@.len(),
            r@.len() == i,
            forall|j: int| 0 <= j < i ==> (#[trigger] r@[j])@ == a@[j]@,
        decreases a@.len() - i,
    {
        r.push((a[i].0.clone(), a[i].1.clone()));
        i = i + 1;
    }
    assert(types::views(r@) =~= types::views(a@));
    r
}

impl Clone for SimpC {
    fn clone(&self) -> (r: SimpC)
        ensures
            r@ == self@,
            r.hint@ == self.hint@,
    {
        SimpC {
            amb_dim: self.amb_dim,
            vertices: copy_vertices(&self.vertices),
            simplices: copy_sets(&self.simplices),
            cells: copy_cells(&self.cells),
            hint: self.hint.clone(),
        }
    }
}

impl PartialEq for SimpC {
    fn eq(&self, other: &SimpC) -> (r: bool) {
        self.amb_dim == other.amb_dim && same_vertices(&self.vertices, &other.vertices)
            && same_sets(&self.simplices, &other.simplices) && same_cells(&self.cells, &other.cells)
    }
}

impl vstd::std_specs::cmp::PartialEqSpecImpl for SimpC {
    open spec fn obeys_eq_spec() -> bool {
        true
    }

    open spec fn eq_spec(&self, other: &SimpC) -> bool {
        self@ == other@
    }
}

impl Eq for SimpC {

}

} // verus!
