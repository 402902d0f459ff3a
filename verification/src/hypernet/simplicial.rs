//! What a complex without violations is, and what each violation says.

use super::simplex;
use super::simplex::{ComplexModel, SimpCViolation};
use vstd::prelude::*;

verus! {

/// `s` stands in the list of simplices.
pub open spec fn listed(c: ComplexModel, s: Set<u32>) -> bool {
    c.simplices.contains(s)
}

/// Some vertex belongs to the set.
pub open spec fn inhabited(s: Set<u32>) -> bool {
    exists|x: u32| s.contains(x)
}

/// A simplicial complex with cells: vertices are points of the ambient space, simplices are
/// nonempty sets of vertices, every nonempty part of a simplex is a simplex, and a cell is a
/// simplex some of whose vertices, but not all, are extension vertices.
pub open spec fn simplicial(c: ComplexModel) -> bool {
    &&& forall|i: int| 0 <= i < c.vertices.len() ==> (#[trigger] c.vertices[i]).len() == c.amb_dim
    &&& forall|i: int|
        0 <= i < c.simplices.len() ==> inhabited(#[trigger] c.simplices[i])
    &&& forall|i: int, x: u32|
        0 <= i < c.simplices.len() && #[trigger] c.simplices[i].contains(x) ==> x
            < c.vertices.len()
    &&& forall|i: int, t: Set<u32>|
        0 <= i < c.simplices.len() && #[trigger] t.subset_of(c.simplices[i]) && inhabited(t) ==> listed(
            c,
            t,
        )
    &&& forall|i: int|
        0 <= i < c.cells.len() ==> {
            &&& listed(c, (#[trigger] c.cells[i]).0)
            &&& forall|x: u32| #[trigger] c.cells[i].1.contains(x) ==> c.cells[i].0.contains(x)
            &&& exists|x: u32| c.cells[i].0.contains(x) && !#[trigger] c.cells[i].1.contains(x)
        }
}

/// A set of indices below a bound has a member exactly where it has a size.
proof fn lemma_size(s: Set<u32>, n: int)
    requires
        forall|x: u32| #[trigger] s.contains(x) ==> x < n,
    ensures
        s.finite(),
        s.len() > 0 <==> exists|x: u32| s.contains(x),
{
    simplex::lemma_bounded_finite(s, n);
    if s.len() == 0 {
        assert(s =~= Set::empty());
    } else {
        let x: u32 = s.choose();
        assert(s.contains(x));
    }
}

/// A complex has no violations exactly where it is a simplicial complex with cells.
pub proof fn law_no_violations_iff_simplicial(c: ComplexModel)
    ensures
        c.violations().len() == 0 <==> simplicial(c),
{
    let n: int = c.vertices.len() as int;
    simplex::law_no_violations_iff_sound(c);
    if c.sound() {
        assert forall|i: int| 0 <= i < c.simplices.len() implies inhabited(#[trigger] c.simplices[i]) by {
            lemma_size(c.simplices[i], n);
            assert(c.simplices[i].len() > 0);
        }
        assert forall|i: int, t: Set<u32>|
            0 <= i < c.simplices.len() && #[trigger] t.subset_of(c.simplices[i]) && inhabited(t) implies listed(c, t) by {
            simplex::law_sound_is_downward_closed(c, i, t);
        }
        assert forall|i: int| 0 <= i < c.cells.len() implies {
            &&& listed(c, (#[trigger] c.cells[i]).0)
            &&& forall|x: u32| #[trigger] c.cells[i].1.contains(x) ==> c.cells[i].0.contains(x)
            &&& exists|x: u32| c.cells[i].0.contains(x) && !#[trigger] c.cells[i].1.contains(x)
        } by {
            let (mask, ext) = c.cells[i];
            assert(c.has(mask) && ext.subset_of(mask) && !mask.subset_of(ext));
            let k: int = choose|k: int|
                0 <= k < c.simplices.len() && #[trigger] c.simplices[k] == mask;
            assert(c.simplices[k] == mask);
        }
        assert(simplicial(c));
    }
    if simplicial(c) {
        assert forall|i: int| 0 <= i < c.simplices.len() implies (#[trigger] c.simplices[i]).len()
            > 0 by {
            lemma_size(c.simplices[i], n);
        }
        assert forall|i: int, x: u32|
            0 <= i < c.simplices.len() && c.simplices[i].len() > 1
                && #[trigger] c.simplices[i].contains(x) implies c.has(
            c.simplices[i].remove(x),
        ) by {
            let s: Set<u32> = c.simplices[i];
            let t: Set<u32> = s.remove(x);
            lemma_size(s, n);
            assert forall|y: u32| #[trigger] t.contains(y) implies y < n by {
                assert(s.contains(y));
            }
            lemma_size(t, n);
            assert(t.len() == s.len() - 1);
            assert(t.subset_of(c.simplices[i]));
            assert(listed(c, t));
        }
        assert forall|i: int, j: int|
            0 <= i < c.simplices.len() && 0 <= j < c.simplices.len() implies {
            let meet = #[trigger] c.simplices[i].intersect(c.simplices[j]);
            meet =~= Set::empty() || c.has(meet)
        } by {
            let meet: Set<u32> = c.simplices[i].intersect(c.simplices[j]);
            if !(meet =~= Set::empty()) {
                let x: u32 = choose|x: u32| #[trigger] meet.contains(x);
                assert(meet.contains(x));
                assert(meet.subset_of(c.simplices[i]));
                assert(listed(c, meet));
            }
        }
        assert forall|i: int| 0 <= i < c.cells.len() implies {
            let (mask, ext) = #[trigger] c.cells[i];
            c.has(mask) && ext.subset_of(mask) && !mask.subset_of(ext)
        } by {
            let (mask, ext) = c.cells[i];
            assert(listed(c, c.cells[i].0));
            assert(c.has(mask));
            assert forall|x: u32| ext.contains(x) implies mask.contains(x) by {
                assert(c.cells[i].1.contains(x));
            }
            let x: u32 = choose|x: u32|
                c.cells[i].0.contains(x) && !#[trigger] c.cells[i].1.contains(x);
            assert(mask.contains(x) && !ext.contains(x));
        }
        assert(c.sound());
    }
}

/// An item of the joined lists is an item of one of them.
pub proof fn lemma_flat_items<T>(f: spec_fn(int) -> Seq<T>, n: int, x: T)
    ensures
        simplex::flat(f, n).contains(x) <==> exists|i: int|
            0 <= i < n && #[trigger] f(i).contains(x),
    decreases n,
{
    if n > 0 {
        lemma_flat_items(f, n - 1, x);
        let a: Seq<T> = simplex::flat(f, n - 1);
        let b: Seq<T> = f(n - 1);
        lemma_joined(a, b, x);
        if a.contains(x) {
            let i: int = choose|i: int| 0 <= i < n - 1 && #[trigger] f(i).contains(x);
            assert(0 <= i < n && f(i).contains(x));
        }
        if b.contains(x) {
            assert(0 <= n - 1 < n && f(n - 1).contains(x));
        }
    }
}

/// An item of two lists joined.
pub proof fn lemma_joined<T>(a: Seq<T>, b: Seq<T>, x: T)
    ensures
        (a + b).contains(x) <==> a.contains(x) || b.contains(x),
{
    if a.contains(x) {
        let i: int = choose|i: int| 0 <= i < a.len() && a[i] == x;
        assert((a + b)[i] == x);
    }
    if b.contains(x) {
        let i: int = choose|i: int| 0 <= i < b.len() && b[i] == x;
        assert((a + b)[a.len() + i] == x);
    }
    if (a + b).contains(x) {
        let i: int = choose|i: int| 0 <= i < (a + b).len() && (a + b)[i] == x;
        if i < a.len() {
            assert(a[i] == x);
        } else {
            assert(b[i - a.len()] == x);
        }
    }
}

/// What a violation says of a complex.
pub open spec fn says(c: ComplexModel, v: SimpCViolation) -> bool {
    match v {
        SimpCViolation::VertexDimMismatch { vertex, len, amb_dim } => {
            &&& vertex < c.vertices.len()
            &&& c.vertices[vertex as int].len() != amb_dim
            &&& len == c.vertices[vertex as int].len() as u32
            &&& amb_dim == c.amb_dim
        },
        SimpCViolation::EmptySimplex { simplex } => {
            &&& simplex < c.simplices.len()
            &&& c.simplices[simplex as int].len() == 0
        },
        SimpCViolation::VertexOutOfRange { simplex, vertex } => {
            let s = c.simplices[simplex as int];
            &&& simplex < c.simplices.len()
            &&& s.len() > 0
            &&& s.contains(vertex)
            &&& vertex >= c.vertices.len()
            &&& forall|x: u32| #[trigger] s.contains(x) && x >= c.vertices.len() ==> vertex <= x
        },
        SimpCViolation::MissingFace { simplex, removed_vertex } => {
            let s = c.simplices[simplex as int];
            &&& simplex < c.simplices.len()
            &&& s.len() > 1
            &&& forall|x: u32| #[trigger] s.contains(x) ==> x < c.vertices.len()
            &&& s.contains(removed_vertex)
            &&& !listed(c, s.remove(removed_vertex))
        },
        SimpCViolation::MissingIntersection { simplex_a, simplex_b } => {
            let s = c.simplices[simplex_a as int];
            let t = c.simplices[simplex_b as int];
            &&& simplex_a < c.simplices.len()
            &&& simplex_b < c.simplices.len()
            &&& exists|x: u32| #[trigger] s.contains(x) && t.contains(x)
            &&& !listed(c, s.intersect(t))
        },
        SimpCViolation::CellMaskNotSimplex { cell } => {
            &&& cell < c.cells.len()
            &&& !listed(c, c.cells[cell as int].0)
        },
        SimpCViolation::CellExtNotSubset { cell } => {
            &&& cell < c.cells.len()
            &&& exists|x: u32|
                #[trigger] c.cells[cell as int].1.contains(x) && !c.cells[cell as int].0.contains(x)
        },
        SimpCViolation::CellNoCoreVertex { cell } => {
            &&& cell < c.cells.len()
            &&& forall|x: u32| #[trigger]
                c.cells[cell as int].0.contains(x) ==> c.cells[cell as int].1.contains(x)
        },
    }
}

/// Standing in the list of simplices.
proof fn lemma_listed(c: ComplexModel, s: Set<u32>)
    ensures
        c.has(s) <==> listed(c, s),
{
    if listed(c, s) {
        let i: int = choose|i: int| 0 <= i < c.simplices.len() && c.simplices[i] == s;
        assert(c.simplices[i] == s);
    }
}

/// A list of one item.
proof fn lemma_single<T>(x: T, y: T)
    ensures
        seq![x].contains(y) <==> x == y,
{
    assert(seq![x][0] == x);
}

/// A set with a member from `n` on has a lowest one.
proof fn lemma_lowest(s: Set<u32>, n: int, x: u32)
    requires
        s.contains(x),
        x >= n,
    ensures
        simplex::is_lowest_from(s, n, simplex::lowest_from(s, n)),
    decreases x,
{
    if forall|y: u32| #[trigger] s.contains(y) && y >= n ==> x <= y {
        assert(simplex::is_lowest_from(s, n, x));
    } else {
        let y: u32 = choose|y: u32| #[trigger] s.contains(y) && y >= n && !(x <= y);
        lemma_lowest(s, n, y);
    }
}

/// The vertices' violations.
proof fn lemma_vertex_says(c: ComplexModel, i: int, v: SimpCViolation)
    requires
        0 <= i < c.vertices.len() <= u32::MAX,
    ensures
        (c.vertex_faults())(i).contains(v) <==> says(c, v) && match v {
            SimpCViolation::VertexDimMismatch { vertex, .. } => vertex == i,
            _ => false,
        },
{
    lemma_single(
        SimpCViolation::VertexDimMismatch {
            vertex: i as u32,
            len: c.vertices[i].len() as u32,
            amb_dim: c.amb_dim,
        },
        v,
    );
}

/// The simplices' violations.
proof fn lemma_simplex_says(c: ComplexModel, i: int, v: SimpCViolation)
    requires
        c.vertices.len() <= u32::MAX,
        0 <= i < c.simplices.len() <= u32::MAX,
    ensures
        (c.simplex_faults())(i).contains(v) <==> says(c, v) && match v {
            SimpCViolation::EmptySimplex { simplex } => simplex == i,
            SimpCViolation::VertexOutOfRange { simplex, .. } => simplex == i,
            SimpCViolation::MissingFace { simplex, .. } => simplex == i,
            _ => false,
        },
{
    let s: Set<u32> = c.simplices[i];
    let n: int = c.vertices.len() as int;
    if s.len() == 0 {
        lemma_single(SimpCViolation::EmptySimplex { simplex: i as u32 }, v);
    } else if c.strays(i) {
        let x: u32 = choose|x: u32| #[trigger] c.simplices[i].contains(x) && x >= n;
        lemma_lowest(s, n, x);
        let low: u32 = simplex::lowest_from(s, n);
        lemma_single(SimpCViolation::VertexOutOfRange { simplex: i as u32, vertex: low }, v);
        assert(s.contains(low) && low >= n);
    } else if s.len() > 1 {
        let f = c.face_faults(i);
        lemma_flat_items(f, n, v);
        assert forall|x: u32| #[trigger] s.contains(x) implies x < n by {}
        if simplex::flat(f, n).contains(v) {
            let w: int = choose|w: int| 0 <= w < n && #[trigger] f(w).contains(v);
            lemma_listed(c, s.remove(w as u32));
            lemma_single(
                SimpCViolation::MissingFace { simplex: i as u32, removed_vertex: w as u32 },
                v,
            );
        }
        if let SimpCViolation::MissingFace { simplex, removed_vertex } = v {
            if says(c, v) && simplex == i {
                lemma_listed(c, s.remove(removed_vertex));
                lemma_single(v, v);
                assert(s.contains(removed_vertex));
                assert(0 <= removed_vertex as int && (removed_vertex as int) < n);
                assert(f(removed_vertex as int).contains(v));
            }
        }
    } else {
        assert forall|x: u32| #[trigger] s.contains(x) implies x < n by {}
    }
}

/// The violations between simplices.
proof fn lemma_pair_says(c: ComplexModel, i: int, v: SimpCViolation)
    requires
        0 <= i < c.simplices.len() <= u32::MAX,
    ensures
        (c.conformity_faults())(i).contains(v) <==> says(c, v) && match v {
            SimpCViolation::MissingIntersection { simplex_a, .. } => simplex_a == i,
            _ => false,
        },
{
    let f = c.pair_faults(i);
    let m: int = c.simplices.len() as int;
    lemma_flat_items(f, m, v);
    if simplex::flat(f, m).contains(v) {
        let j: int = choose|j: int| 0 <= j < m && #[trigger] f(j).contains(v);
        let meet: Set<u32> = c.simplices[i].intersect(c.simplices[j]);
        lemma_listed(c, meet);
        lemma_single(
            SimpCViolation::MissingIntersection { simplex_a: i as u32, simplex_b: j as u32 },
            v,
        );
        let x: u32 = choose|x: u32| #[trigger] meet.contains(x);
        assert(meet.contains(x));
        assert(c.simplices[i].contains(x) && c.simplices[j].contains(x));
    }
    if let SimpCViolation::MissingIntersection { simplex_a, simplex_b } = v {
        if says(c, v) && simplex_a == i {
            let j: int = simplex_b as int;
            let meet: Set<u32> = c.simplices[i].intersect(c.simplices[j]);
            lemma_listed(c, meet);
            lemma_single(v, v);
            let x: u32 = choose|x: u32|
                #[trigger] c.simplices[i].contains(x) && c.simplices[j].contains(x);
            assert(meet.contains(x));
            assert(f(j).contains(v));
        }
    }
}

/// The cells' violations.
proof fn lemma_cell_says(c: ComplexModel, i: int, v: SimpCViolation)
    requires
        0 <= i < c.cells.len() <= u32::MAX,
    ensures
        (c.cell_faults())(i).contains(v) <==> says(c, v) && match v {
            SimpCViolation::CellMaskNotSimplex { cell } => cell == i,
            SimpCViolation::CellExtNotSubset { cell } => cell == i,
            SimpCViolation::CellNoCoreVertex { cell } => cell == i,
            _ => false,
        },
{
    let (mask, ext) = c.cells[i];
    let x: SimpCViolation = SimpCViolation::CellMaskNotSimplex { cell: i as u32 };
    let y: SimpCViolation = SimpCViolation::CellExtNotSubset { cell: i as u32 };
    let z: SimpCViolation = SimpCViolation::CellNoCoreVertex { cell: i as u32 };
    let a: Seq<SimpCViolation> = if !c.has(mask) {
        seq![x]
    } else {
        Seq::empty()
    };
    let b: Seq<SimpCViolation> = if !ext.subset_of(mask) {
        seq![y]
    } else {
        Seq::empty()
    };
    let d: Seq<SimpCViolation> = if mask.subset_of(ext) {
        seq![z]
    } else {
        Seq::empty()
    };
    lemma_joined(a + b, d, v);
    lemma_joined(a, b, v);
    lemma_single(x, v);
    lemma_single(y, v);
    lemma_single(z, v);
    lemma_listed(c, mask);
    assert((c.cell_faults())(i) == a + b + d);
    assert(says(c, x) <==> !c.has(mask));
    assert(says(c, y) <==> !ext.subset_of(mask)) by {
        if !ext.subset_of(mask) {
            let w: u32 = choose|w: u32| ext.contains(w) && !mask.contains(w);
            assert(c.cells[i].1.contains(w));
        }
    }
    assert(says(c, z) <==> mask.subset_of(ext)) by {
        if says(c, z) {
            assert forall|w: u32| mask.contains(w) implies ext.contains(w) by {
                assert(c.cells[i].0.contains(w));
            }
        }
    }
}

/// A violation is reported exactly where what it says is true: nothing is reported that is
/// not there, and nothing that is there is passed over.
pub proof fn law_violations_say_what_is_true(c: ComplexModel, v: SimpCViolation)
    requires
        c.vertices.len() <= u32::MAX,
        c.simplices.len() <= u32::MAX,
        c.cells.len() <= u32::MAX,
    ensures
        c.violations().contains(v) <==> says(c, v),
{
    let n: int = c.vertices.len() as int;
    let m: int = c.simplices.len() as int;
    let k: int = c.cells.len() as int;
    let f1 = c.vertex_faults();
    let f2 = c.simplex_faults();
    let f3 = c.conformity_faults();
    let f4 = c.cell_faults();
    let s1: Seq<SimpCViolation> = simplex::flat(f1, n);
    let s2: Seq<SimpCViolation> = simplex::flat(f2, m);
    let s3: Seq<SimpCViolation> = simplex::flat(f3, m);
    let s4: Seq<SimpCViolation> = simplex::flat(f4, k);
    lemma_joined(s1 + s2 + s3, s4, v);
    lemma_joined(s1 + s2, s3, v);
    lemma_joined(s1, s2, v);
    lemma_flat_items(f1, n, v);
    lemma_flat_items(f2, m, v);
    lemma_flat_items(f3, m, v);
    lemma_flat_items(f4, k, v);
    if s1.contains(v) {
        let i: int = choose|i: int| 0 <= i < n && #[trigger] f1(i).contains(v);
        lemma_vertex_says(c, i, v);
    }
    if s2.contains(v) {
        let i: int = choose|i: int| 0 <= i < m && #[trigger] f2(i).contains(v);
        lemma_simplex_says(c, i, v);
    }
    if s3.contains(v) {
        let i: int = choose|i: int| 0 <= i < m && #[trigger] f3(i).contains(v);
        lemma_pair_says(c, i, v);
    }
    if s4.contains(v) {
        let i: int = choose|i: int| 0 <= i < k && #[trigger] f4(i).contains(v);
        lemma_cell_says(c, i, v);
    }
    if says(c, v) {
        match v {
            SimpCViolation::VertexDimMismatch { vertex, .. } => {
                lemma_vertex_says(c, vertex as int, v);
                assert(f1(vertex as int).contains(v));
            },
            SimpCViolation::EmptySimplex { simplex } => {
                lemma_simplex_says(c, simplex as int, v);
                assert(f2(simplex as int).contains(v));
            },
            SimpCViolation::VertexOutOfRange { simplex, .. } => {
                lemma_simplex_says(c, simplex as int, v);
                assert(f2(simplex as int).contains(v));
            },
            SimpCViolation::MissingFace { simplex, .. } => {
                lemma_simplex_says(c, simplex as int, v);
                assert(f2(simplex as int).contains(v));
            },
            SimpCViolation::MissingIntersection { simplex_a, .. } => {
                lemma_pair_says(c, simplex_a as int, v);
                assert(f3(simplex_a as int).contains(v));
            },
            SimpCViolation::CellMaskNotSimplex { cell } => {
                lemma_cell_says(c, cell as int, v);
                assert(f4(cell as int).contains(v));
            },
            SimpCViolation::CellExtNotSubset { cell } => {
                lemma_cell_says(c, cell as int, v);
                assert(f4(cell as int).contains(v));
            },
            SimpCViolation::CellNoCoreVertex { cell } => {
                lemma_cell_says(c, cell as int, v);
                assert(f4(cell as int).contains(v));
            },
        }
    }
}

} // verus!
