//! What a verdict says of the rows: the whole rows are compared, entry by entry, and the
//! comparison is equality of sparse vectors.

use super::batch;
use super::batch::{RowEqBatch, RowEqError, RowEqOutcome};
use super::reference;
use crate::limbs;
use crate::nt;
use crate::planes;
use vstd::prelude::*;

verus! {

/// Row `r` as it stands in the planes: of each of its entries the column, the sign, the
/// words of the numerator and the denominator id.
pub open spec fn written(b: &RowEqBatch, r: int) -> Seq<(u32, i8, Seq<u64>, u32)> {
    Seq::new(
        (b.row_ptr@[r + 1] - b.row_ptr@[r]) as nat,
        |i: int|
            {
                let e = b.row_ptr@[r] + i;
                let s = b.nnz_slot@[e] as int;
                (
                    b.nnz_col@[e],
                    b.sign@[s],
                    Seq::new(b.k as nat, |l: int| b.mag@[l * b.n_slots + s]),
                    b.den_id@[s],
                )
            },
    )
}

/// Some pool row of attempt `a` is written as row `q` is.
pub open spec fn pool_lists(b: &RowEqBatch, a: int, q: int) -> bool {
    exists|r: int|
        b.split@[a] <= r < b.arow_ptr@[a + 1] && #[trigger] written(b, r) == written(b, q)
}

/// The rows of an attempt, and the entries of a row, lie inside their planes.
proof fn lemma_ranges(b: &RowEqBatch, a: int, r: int)
    requires
        b.valid(),
        0 <= a < b.attempts(),
        b.arow_ptr@[a] <= r < b.arow_ptr@[a + 1],
    ensures
        0 <= r < b.rows(),
        b.rows() == b.row_ptr@.len() - 1,
        b.row_ptr@[r] <= b.row_ptr@[r + 1] <= b.nnz_col@.len(),
        b.nnz_col@.len() == b.nnz_slot@.len(),
        forall|e: int|
            b.row_ptr@[r] <= e < b.row_ptr@[r + 1] ==> (#[trigger] b.nnz_slot@[e]) < b.n_slots,
{
    assert(b.arow_ptr@[a + 1] <= b.arow_ptr@[b.arow_ptr@.len() - 1]);
    assert(b.row_ptr@[r + 1] <= b.row_ptr@[b.row_ptr@.len() - 1]);
}

/// Two rows are the same exactly where the planes hold the same of both.
proof fn lemma_same_row_is_same_writing(b: &RowEqBatch, a: int, q: int, r: int)
    requires
        b.valid(),
        0 <= a < b.attempts(),
        b.arow_ptr@[a] <= q < b.arow_ptr@[a + 1],
        b.arow_ptr@[a] <= r < b.arow_ptr@[a + 1],
    ensures
        b.same_row(q, r) <==> written(b, q) == written(b, r),
{
    lemma_ranges(b, a, q);
    lemma_ranges(b, a, r);
    let u: Seq<(u32, i8, Seq<u64>, u32)> = written(b, q);
    let v: Seq<(u32, i8, Seq<u64>, u32)> = written(b, r);
    let n: int = b.row_ptr@[q + 1] - b.row_ptr@[q];
    let m: int = b.row_ptr@[r + 1] - b.row_ptr@[r];
    assert forall|i: int| 0 <= i < n && i < m implies (#[trigger] b.same_entry(q, r, i) <==> u[i]
        == v[i]) by {
        let s: int = b.nnz_slot@[b.row_ptr@[q] + i] as int;
        let t: int = b.nnz_slot@[b.row_ptr@[r] + i] as int;
        let x: Seq<u64> = Seq::new(b.k as nat, |l: int| b.mag@[l * b.n_slots + s]);
        let y: Seq<u64> = Seq::new(b.k as nat, |l: int| b.mag@[l * b.n_slots + t]);
        reference::lemma_words_determined(x, y, 0);
        assert(b.slot_mag(s) == limbs::value(x)) by {
            assert(x =~= planes::slot_limbs(b.mag@, b.k as int, b.n_slots as int, s));
        }
        assert(b.slot_mag(t) == limbs::value(y)) by {
            assert(y =~= planes::slot_limbs(b.mag@, b.k as int, b.n_slots as int, t));
        }
        if b.slot_mag(s) == b.slot_mag(t) {
            assert(x =~= y);
        }
        assert(u[i].2 == x && v[i].2 == y);
    }
    if b.same_row(q, r) {
        assert forall|i: int| 0 <= i < u.len() implies u[i] == v[i] by {
            assert(b.same_entry(q, r, i));
        }
        assert(u =~= v);
    }
    if u == v {
        assert(u.len() == v.len());
        assert forall|i: int| 0 <= i < b.row_len(q) implies #[trigger] b.same_entry(q, r, i) by {
            assert(u[i] == v[i]);
        }
    }
}

/// A verdict is about whole rows: an attempt is accepted exactly where every query row has
/// a pool row of the same attempt in which the planes hold the same entries from the first
/// to the last, and there is one verdict for each attempt.
pub proof fn law_verdict_compares_whole_rows(b: &RowEqBatch, out: RowEqOutcome, a: int)
    requires
        reference::is_outcome(b, Ok(out)),
        0 <= a < b.arow_ptr@.len() - 1,
    ensures
        out.member_ok@.len() == b.arow_ptr@.len() - 1,
        out.member_ok@[a] <==> forall|q: int|
            b.arow_ptr@[a] <= q < b.split@[a] ==> #[trigger] pool_lists(b, a, q),
{
    assert(b.split_ok(a));
    assert(out.member_ok@[a] == b.members(a));
    let good = forall|q: int|
        b.arow_ptr@[a] <= q < b.split@[a] ==> #[trigger] pool_lists(b, a, q);
    if b.members(a) {
        assert forall|q: int| b.arow_ptr@[a] <= q < b.split@[a] implies #[trigger] pool_lists(b, a, q) by {
            assert(b.found(a, q));
            let r: int = choose|r: int|
                b.split@[a] <= r < b.arow_ptr@[a + 1] && #[trigger] b.same_row(q, r);
            lemma_same_row_is_same_writing(b, a, q, r);
            assert(written(b, r) == written(b, q));
        }
    }
    if good {
        assert forall|q: int| b.arow_ptr@[a] <= q < b.split@[a] implies #[trigger] b.found(
            a,
            q,
        ) by {
            assert(pool_lists(b, a, q));
            let r: int = choose|r: int|
                b.split@[a] <= r < b.arow_ptr@[a + 1] && #[trigger] written(b, r) == written(b, q);
            lemma_same_row_is_same_writing(b, a, q, r);
        }
    }
}

/// The numerator at place `i` of row `r`.
pub open spec fn num_at(b: &RowEqBatch, r: int, i: int) -> int {
    let s = b.nnz_slot@[b.row_ptr@[r] + i] as int;
    limbs::signed(b.sign@[s], limbs::value(written(b, r)[i].2))
}

/// The denominator at place `i` of row `r`, where `den` reads the ids.
pub open spec fn den_at(b: &RowEqBatch, den: spec_fn(u32) -> int, r: int, i: int) -> int {
    den(written(b, r)[i].3)
}

/// The value that row `r` has in column `c` among its first `n` entries, as a numerator and
/// a denominator: zero where no entry names the column.
pub open spec fn value_in(b: &RowEqBatch, den: spec_fn(u32) -> int, r: int, c: u32, n: int) -> (
    int,
    int,
)
    decreases n,
{
    if n <= 0 {
        (0, 1)
    } else if written(b, r)[n - 1].0 == c {
        (num_at(b, r, n - 1), den_at(b, den, r, n - 1))
    } else {
        value_in(b, den, r, c, n - 1)
    }
}

/// The value of row `r` in column `c`.
pub open spec fn coordinate(b: &RowEqBatch, den: spec_fn(u32) -> int, r: int, c: u32) -> (
    int,
    int,
) {
    value_in(b, den, r, c, b.row_ptr@[r + 1] - b.row_ptr@[r])
}

/// Two fractions are equal.
pub open spec fn equal_fractions(x: (int, int), y: (int, int)) -> bool {
    x.0 * y.1 == y.0 * x.1
}

/// Rows `q` and `r` are equal as vectors: they have the same value in every column.
pub open spec fn equal_vectors(b: &RowEqBatch, den: spec_fn(u32) -> int, q: int, r: int) -> bool {
    forall|c: u32|
        equal_fractions(#[trigger] coordinate(b, den, q, c), coordinate(b, den, r, c))
}

/// Some pool row of attempt `a` is the same vector as row `q`.
pub open spec fn pool_equals(b: &RowEqBatch, den: spec_fn(u32) -> int, a: int, q: int) -> bool {
    exists|r: int|
        b.split@[a] <= r < b.arow_ptr@[a + 1] && #[trigger] equal_vectors(b, den, q, r)
}

/// The denominators of row `r` are read as positive numbers, its fractions are reduced and
/// not zero, and its columns rise.
pub open spec fn canonical_row(b: &RowEqBatch, den: spec_fn(u32) -> int, r: int) -> bool {
    let n = b.row_ptr@[r + 1] - b.row_ptr@[r];
    &&& forall|i: int| 0 <= i < n ==> #[trigger] den_at(b, den, r, i) > 0
    &&& forall|i: int| 0 <= i < n ==> #[trigger] num_at(b, r, i) != 0
    &&& forall|i: int|
        0 <= i < n ==> nt::gcd(
            nt::abs(#[trigger] num_at(b, r, i)) as nat,
            den_at(b, den, r, i) as nat,
        ) == 1
    &&& forall|i: int, j: int|
        0 <= i < j < n ==> (#[trigger] written(b, r)[i]).0 < (#[trigger] written(b, r)[j]).0
}

/// Different ids stand for different denominators.
pub open spec fn injective(den: spec_fn(u32) -> int) -> bool {
    forall|x: u32, y: u32| #[trigger] den(x) == #[trigger] den(y) ==> x == y
}

/// The same writing has the same coordinates.
proof fn lemma_coordinates(b: &RowEqBatch, den: spec_fn(u32) -> int, q: int, r: int, c: u32, n: int)
    requires
        written(b, q) == written(b, r),
        n <= written(b, q).len(),
    ensures
        value_in(b, den, q, c, n) == value_in(b, den, r, c, n),
    decreases n,
{
    if n > 0 {
        lemma_coordinates(b, den, q, r, c, n - 1);
        assert(written(b, q)[n - 1] == written(b, r)[n - 1]);
        assert(written(b, q)[n - 1].1 == b.sign@[b.nnz_slot@[b.row_ptr@[q] + n - 1] as int]);
        assert(written(b, r)[n - 1].1 == b.sign@[b.nnz_slot@[b.row_ptr@[r] + n - 1] as int]);
    }
}

/// A coordinate that is not zero comes from an entry.
proof fn lemma_entry_of(b: &RowEqBatch, den: spec_fn(u32) -> int, r: int, c: u32, n: int) -> (i: int)
    requires
        n <= written(b, r).len(),
        value_in(b, den, r, c, n).0 != 0,
    ensures
        0 <= i < n,
        written(b, r)[i].0 == c,
        value_in(b, den, r, c, n) == (num_at(b, r, i), den_at(b, den, r, i)),
    decreases n,
{
    if written(b, r)[n - 1].0 == c {
        n - 1
    } else {
        lemma_entry_of(b, den, r, c, n - 1)
    }
}

/// Where the columns rise, an entry is the coordinate of its column.
proof fn lemma_coordinate_of(b: &RowEqBatch, den: spec_fn(u32) -> int, r: int, i: int, n: int)
    requires
        0 <= i < n <= written(b, r).len(),
        forall|i: int, j: int|
            0 <= i < j < n ==> (#[trigger] written(b, r)[i]).0 < (#[trigger] written(b, r)[j]).0,
    ensures
        value_in(b, den, r, written(b, r)[i].0, n) == (num_at(b, r, i), den_at(b, den, r, i)),
    decreases n,
{
    if i < n - 1 {
        assert(written(b, r)[i].0 < written(b, r)[n - 1].0);
        lemma_coordinate_of(b, den, r, i, n - 1);
    }
}

/// Rising lists that have the same members agree place by place.
proof fn lemma_rising(u: Seq<u32>, v: Seq<u32>, n: int)
    requires
        forall|i: int, j: int| 0 <= i < j < u.len() ==> u[i] < u[j],
        forall|i: int, j: int| 0 <= i < j < v.len() ==> v[i] < v[j],
        forall|i: int| 0 <= i < u.len() ==> v.contains(#[trigger] u[i]),
        forall|i: int| 0 <= i < v.len() ==> u.contains(#[trigger] v[i]),
        0 <= n <= u.len(),
        n <= v.len(),
    ensures
        forall|i: int| 0 <= i < n ==> u[i] == v[i],
    decreases n,
{
    if n > 0 {
        lemma_rising(u, v, n - 1);
        assert(v.contains(u[n - 1]));
        assert(u.contains(v[n - 1]));
        let j: int = choose|j: int| 0 <= j < v.len() && v[j] == u[n - 1];
        let k: int = choose|k: int| 0 <= k < u.len() && u[k] == v[n - 1];
        if j < n - 1 {
            assert(u[j] == v[j]);
        }
        if k < n - 1 {
            assert(u[k] == v[k]);
        }
    }
}

/// Rising lists that have the same members are the same.
proof fn lemma_rising_same(u: Seq<u32>, v: Seq<u32>)
    requires
        forall|i: int, j: int| 0 <= i < j < u.len() ==> u[i] < u[j],
        forall|i: int, j: int| 0 <= i < j < v.len() ==> v[i] < v[j],
        forall|i: int| 0 <= i < u.len() ==> v.contains(#[trigger] u[i]),
        forall|i: int| 0 <= i < v.len() ==> u.contains(#[trigger] v[i]),
    ensures
        u == v,
{
    if u.len() < v.len() {
        lemma_rising(u, v, u.len() as int);
        assert(u.contains(v[u.len() as int]));
        let k: int = choose|k: int| 0 <= k < u.len() && u[k] == v[u.len() as int];
        assert(u[k] == v[k]);
    } else if v.len() < u.len() {
        lemma_rising(u, v, v.len() as int);
        assert(v.contains(u[v.len() as int]));
        let k: int = choose|k: int| 0 <= k < v.len() && v[k] == u[v.len() as int];
        assert(u[k] == v[k]);
    } else {
        lemma_rising(u, v, u.len() as int);
        assert(u =~= v);
    }
}

/// Every column of a canonical row is a column of a canonical row that is the same vector.
proof fn lemma_columns(b: &RowEqBatch, den: spec_fn(u32) -> int, q: int, r: int, i: int) -> (j: int)
    requires
        canonical_row(b, den, q),
        canonical_row(b, den, r),
        equal_vectors(b, den, q, r),
        b.row_ptr@[q] <= b.row_ptr@[q + 1],
        b.row_ptr@[r] <= b.row_ptr@[r + 1],
        0 <= i < written(b, q).len(),
    ensures
        0 <= j < written(b, r).len(),
        written(b, r)[j].0 == written(b, q)[i].0,
        equal_fractions(
            (num_at(b, q, i), den_at(b, den, q, i)),
            (num_at(b, r, j), den_at(b, den, r, j)),
        ),
{
    let c: u32 = written(b, q)[i].0;
    let n: int = written(b, r).len() as int;
    lemma_coordinate_of(b, den, q, i, written(b, q).len() as int);
    let x: (int, int) = coordinate(b, den, q, c);
    let y: (int, int) = coordinate(b, den, r, c);
    assert(x == (num_at(b, q, i), den_at(b, den, q, i)));
    assert(equal_fractions(x, y));
    lemma_den_positive(b, den, r, c, n);
    if y.0 == 0 {
        assert(x.0 * y.1 != 0) by (nonlinear_arith)
            requires
                x.0 != 0,
                y.1 > 0,
        ;
        assert(y.0 * x.1 == 0) by (nonlinear_arith)
            requires
                y.0 == 0,
        ;
    }
    lemma_entry_of(b, den, r, c, n)
}

/// The denominator of a coordinate of a canonical row is positive.
proof fn lemma_den_positive(b: &RowEqBatch, den: spec_fn(u32) -> int, r: int, c: u32, n: int)
    requires
        canonical_row(b, den, r),
        b.row_ptr@[r] <= b.row_ptr@[r + 1],
        n <= written(b, r).len(),
    ensures
        value_in(b, den, r, c, n).1 > 0,
    decreases n,
{
    if n > 0 {
        lemma_den_positive(b, den, r, c, n - 1);
        assert(den_at(b, den, r, n - 1) > 0);
    }
}

/// Canonical rows that are the same vector are written the same.
proof fn lemma_vectors_written(b: &RowEqBatch, den: spec_fn(u32) -> int, a: int, q: int, r: int)
    requires
        b.valid(),
        injective(den),
        0 <= a < b.attempts(),
        b.arow_ptr@[a] <= q < b.arow_ptr@[a + 1],
        b.arow_ptr@[a] <= r < b.arow_ptr@[a + 1],
        canonical_row(b, den, q),
        canonical_row(b, den, r),
        equal_vectors(b, den, q, r),
    ensures
        written(b, q) == written(b, r),
{
    lemma_ranges(b, a, q);
    lemma_ranges(b, a, r);
    let x: Seq<(u32, i8, Seq<u64>, u32)> = written(b, q);
    let y: Seq<(u32, i8, Seq<u64>, u32)> = written(b, r);
    let u: Seq<u32> = Seq::new(x.len(), |i: int| x[i].0);
    let v: Seq<u32> = Seq::new(y.len(), |i: int| y[i].0);
    assert forall|i: int| 0 <= i < u.len() implies v.contains(#[trigger] u[i]) by {
        let j: int = lemma_columns(b, den, q, r, i);
        assert(v[j] == u[i]);
    }
    assert(equal_vectors(b, den, r, q)) by {
        assert forall|c: u32| equal_fractions(
            #[trigger] coordinate(b, den, r, c),
            coordinate(b, den, q, c),
        ) by {
            assert(equal_fractions(coordinate(b, den, q, c), coordinate(b, den, r, c)));
        }
    }
    assert forall|i: int| 0 <= i < v.len() implies u.contains(#[trigger] v[i]) by {
        let j: int = lemma_columns(b, den, r, q, i);
        assert(u[j] == v[i]);
    }
    lemma_rising_same(u, v);
    assert(x.len() == y.len());
    assert forall|i: int| 0 <= i < b.row_len(q) implies #[trigger] b.same_entry(q, r, i) by {
        let s: int = b.nnz_slot@[b.row_ptr@[q] + i] as int;
        let t: int = b.nnz_slot@[b.row_ptr@[r] + i] as int;
        assert(u[i] == v[i]);
        let j: int = lemma_columns(b, den, q, r, i);
        assert(v[j] == v[i]);
        if j < i {
            assert(y[j].0 < y[i].0);
        } else if i < j {
            assert(y[i].0 < y[j].0);
        }
        assert(b.slot_mag(s) == limbs::value(x[i].2)) by {
            assert(x[i].2 =~= planes::slot_limbs(b.mag@, b.k as int, b.n_slots as int, s));
        }
        assert(b.slot_mag(t) == limbs::value(y[i].2)) by {
            assert(y[i].2 =~= planes::slot_limbs(b.mag@, b.k as int, b.n_slots as int, t));
        }
        assert(den_at(b, den, q, i) > 0 && den_at(b, den, r, i) > 0);
        assert(nt::abs(num_at(b, q, i)) == b.slot_mag(s));
        assert(nt::abs(num_at(b, r, i)) == b.slot_mag(t));
        batch::law_same_value_is_equality(b, den, s, t);
    }
    lemma_same_row_is_same_writing(b, a, q, r);
}

/// Membership is equality of sparse vectors. Where an attempt is accepted, every query row
/// has a pool row with the same value in every column. Where moreover the denominator ids
/// tell the denominators apart and the rows are canonical, an attempt is accepted exactly
/// then.
pub proof fn law_verdict_is_equality_of_vectors(
    b: &RowEqBatch,
    out: RowEqOutcome,
    den: spec_fn(u32) -> int,
    a: int,
)
    requires
        reference::is_outcome(b, Ok(out)),
        0 <= a < b.arow_ptr@.len() - 1,
    ensures
        out.member_ok@[a] ==> forall|q: int|
            b.arow_ptr@[a] <= q < b.split@[a] ==> #[trigger] pool_equals(b, den, a, q),
        injective(den) && (forall|r: int|
            b.arow_ptr@[a] <= r < b.arow_ptr@[a + 1] ==> #[trigger] canonical_row(b, den, r)) ==> (
        out.member_ok@[a] <==> forall|q: int|
            b.arow_ptr@[a] <= q < b.split@[a] ==> #[trigger] pool_equals(b, den, a, q)),
{
    law_verdict_compares_whole_rows(b, out, a);
    assert(b.split_ok(a));
    let good = forall|q: int|
        b.arow_ptr@[a] <= q < b.split@[a] ==> #[trigger] pool_equals(b, den, a, q);
    if out.member_ok@[a] {
        assert forall|q: int| b.arow_ptr@[a] <= q < b.split@[a] implies #[trigger] pool_equals(b, den, a, q) by {
            assert(pool_lists(b, a, q));
            let r: int = choose|r: int|
                b.split@[a] <= r < b.arow_ptr@[a + 1] && #[trigger] written(b, r) == written(b, q);
            lemma_ranges(b, a, q);
            lemma_ranges(b, a, r);
            assert forall|c: u32| equal_fractions(
                #[trigger] coordinate(b, den, q, c),
                coordinate(b, den, r, c),
            ) by {
                lemma_coordinates(b, den, q, r, c, written(b, q).len() as int);
                assert(written(b, q).len() == written(b, r).len());
            }
            assert(equal_vectors(b, den, q, r));
        }
    }
    if good && injective(den) && (forall|r: int|
        b.arow_ptr@[a] <= r < b.arow_ptr@[a + 1] ==> #[trigger] canonical_row(b, den, r)) {
        assert forall|q: int| b.arow_ptr@[a] <= q < b.split@[a] implies #[trigger] pool_lists(b, a, q) by {
            assert(pool_equals(b, den, a, q));
            let r: int = choose|r: int|
                b.split@[a] <= r < b.arow_ptr@[a + 1] && #[trigger] equal_vectors(b, den, q, r);
            assert(canonical_row(b, den, q));
            assert(canonical_row(b, den, r));
            lemma_vectors_written(b, den, a, q, r);
            assert(written(b, r) == written(b, q));
        }
    }
}

/// A pointer plane starts at zero, never falls, and ends at `end`.
pub open spec fn climbs(ptr: Seq<u32>, end: int) -> bool {
    &&& ptr.len() > 0
    &&& ptr[0] == 0
    &&& forall|i: int| 0 < i < ptr.len() ==> ptr[i - 1] <= #[trigger] ptr[i]
    &&& ptr[ptr.len() - 1] == end
}

/// Climbing step by step is climbing altogether.
pub proof fn lemma_climbs(ptr: Seq<u32>, end: int)
    ensures
        climbs(ptr, end) <==> planes::rises(ptr, end),
{
    if climbs(ptr, end) {
        assert forall|i: int, j: int| 0 <= i <= j < ptr.len() implies ptr[i] <= ptr[j] by {
            lemma_climb(ptr, end, i, j);
        }
    }
}

/// From one place of a climbing plane to another.
proof fn lemma_climb(ptr: Seq<u32>, end: int, i: int, j: int)
    requires
        climbs(ptr, end),
        0 <= i <= j < ptr.len(),
    ensures
        ptr[i] <= ptr[j],
    decreases j - i,
{
    if i < j {
        lemma_climb(ptr, end, i, j - 1);
        assert(ptr[j - 1] <= ptr[j]);
    }
}

/// All words of slot `s` are zero.
pub open spec fn all_zero(b: &RowEqBatch, s: int) -> bool {
    forall|l: int| 0 <= l < b.k ==> #[trigger] b.mag@[l * b.n_slots + s] == 0
}

/// The sign of slot `s` is minus one, zero or one, and zero exactly for a zero magnitude.
pub open spec fn signed_well(b: &RowEqBatch, s: int) -> bool {
    &&& b.sign@[s] == -1 || b.sign@[s] == 0 || b.sign@[s] == 1
    &&& b.sign@[s] == 0 <==> all_zero(b, s)
}

/// Words spell zero exactly where all of them are zero.
pub proof fn lemma_zero_words(ws: Seq<u64>, i: int)
    requires
        0 <= i <= ws.len(),
    ensures
        limbs::value_from(ws, i) == 0 <==> (forall|l: int|
            i <= l < ws.len() ==> #[trigger] ws[l] == 0),
    decreases ws.len() - i,
{
    if i < ws.len() {
        lemma_zero_words(ws, i + 1);
        let v: int = limbs::value_from(ws, i + 1) as int;
        assert(limbs::base() * v >= 0 && (limbs::base() * v == 0 <==> v == 0)) by (nonlinear_arith)
            requires
                v >= 0,
                limbs::base() > 0,
        ;
    }
}

/// The sign of a slot, word by word.
proof fn lemma_signed_well(b: &RowEqBatch, s: int)
    ensures
        b.slot_ok(s) <==> signed_well(b, s),
{
    let ws: Seq<u64> = planes::slot_limbs(b.mag@, b.k as int, b.n_slots as int, s);
    lemma_zero_words(ws, 0);
    assert(b.slot_mag(s) == 0 <==> all_zero(b, s)) by {
        if b.slot_mag(s) == 0 {
            assert forall|l: int| 0 <= l < b.k implies #[trigger] b.mag@[l * b.n_slots + s] == 0 by {
                assert(ws[l] == 0);
            }
        }
        if all_zero(b, s) {
            assert forall|l: int| 0 <= l < ws.len() implies #[trigger] ws[l] == 0 by {
                assert(b.mag@[l * b.n_slots + s] == 0);
            }
        }
    }
}

/// What a refusal says of a descriptor.
pub open spec fn complains(b: &RowEqBatch, e: RowEqError) -> bool {
    match e {
        RowEqError::Structure(_) => {
            ||| b.sign@.len() != b.n_slots
            ||| b.den_id@.len() != b.n_slots
            ||| b.mag@.len() != b.k * b.n_slots
            ||| !climbs(b.arow_ptr@, b.rows())
            ||| !climbs(b.row_ptr@, b.nnz_col@.len() as int)
            ||| b.nnz_col@.len() != b.nnz_slot@.len()
            ||| b.split@.len() + 1 != b.arow_ptr@.len()
        },
        RowEqError::Split(a) => {
            &&& a + 1 < b.arow_ptr@.len()
            &&& b.split@[a as int] < b.arow_ptr@[a as int] || b.arow_ptr@[a + 1] < b.split@[a as int]
            &&& forall|c: int|
                0 <= c < a ==> b.arow_ptr@[c] <= #[trigger] b.split@[c] <= b.arow_ptr@[c + 1]
        },
        RowEqError::Index(_) => exists|i: int|
            0 <= i < b.nnz_slot@.len() && #[trigger] b.nnz_slot@[i] >= b.n_slots,
        RowEqError::Sign(s) => {
            &&& s < b.n_slots
            &&& !signed_well(b, s as int)
            &&& forall|t: int| 0 <= t < s ==> #[trigger] signed_well(b, t)
        },
    }
}

/// A descriptor is refused exactly where a refusal is true of it, and the refusal that is
/// given is: the pointer planes climb and cover, every split lies in its attempt, every entry
/// names a slot, every sign agrees with its words, or the refusal says which does not.
pub proof fn law_refusals_are_true(b: &RowEqBatch, e: RowEqError)
    ensures
        b.is_first_defect(e) ==> complains(b, e),
        b.valid() ==> !complains(b, e),
{
    lemma_climbs(b.arow_ptr@, b.rows());
    lemma_climbs(b.row_ptr@, b.nnz_col@.len() as int);
    match e {
        RowEqError::Sign(s) => {
            lemma_signed_well(b, s as int);
            assert forall|t: int| 0 <= t < s && b.slot_ok(t) implies #[trigger] signed_well(
                b,
                t,
            ) by {
                lemma_signed_well(b, t);
            }
            if b.valid() && s < b.n_slots {
                assert(b.slot_ok(s as int));
            }
        },
        RowEqError::Split(a) => {
            if b.is_first_defect(e) {
                assert forall|c: int| 0 <= c < a implies b.arow_ptr@[c] <= #[trigger] b.split@[c]
                    <= b.arow_ptr@[c + 1] by {
                    assert(b.split_ok(c));
                }
            }
            if b.valid() && a + 1 < b.arow_ptr@.len() {
                assert(b.split_ok(a as int));
            }
        },
        _ => {},
    }
}

} // verus!
