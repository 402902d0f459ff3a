//! Exact verification of an integer vector against the triplets: `None` accepts,
//! `Some(row)` names the lowest violated row, and overflow is a typed deferral.

use super::Triplets;
use super::profile;
use crate::linalg;
use crate::text::{push_decimal, push_text};
use crate::text;
use std::collections::HashMap;
use vstd::prelude::*;

verus! {

broadcast use vstd::std_specs::hash::group_hash_axioms;

/// 128-bit accumulation overflowed.
#[derive(Clone, Copy, Debug, PartialEq, Eq, Structural)]
pub struct VerifyOverflow {
    /// The row whose term overflowed.
    pub row: u32,
    /// The column being accumulated.
    pub col: u32,
}

impl VerifyOverflow {
    /// What the refusal says.
    pub open spec fn rendered(self) -> Seq<char> {
        "i128 overflow accumulating row "@ + text::decimal(self.row as int) + " into column "@
            + text::decimal(self.col as int)
    }

    /// The text of the refusal.
    pub fn text(&self) -> (r: String)
        ensures
            r@ == self.rendered(),
    {
        let mut s: String = String::new();
        push_text(&mut s, "i128 overflow accumulating row ");
        push_decimal(&mut s, self.row as u64);
        push_text(&mut s, " into column ");
        push_decimal(&mut s, self.col as u64);
        assert(s@ =~= self.rendered());
        s
    }
}

/// The value that `y` gives to column `c`: that of the last pair that names it.
pub open spec fn value_at(y: Seq<(u32, i128)>, c: u32) -> Option<i128>
    decreases y.len(),
{
    if y.len() == 0 {
        None
    } else if y.last().0 == c {
        Some(y.last().1)
    } else {
        value_at(y.drop_last(), c)
    }
}

/// What entry `e` adds to its row: its weight times the value of its column.
pub open spec fn term(y: Seq<(u32, i128)>, e: (u32, u32, i64)) -> int {
    match value_at(y, e.1) {
        Some(v) => v * e.2,
        None => 0,
    }
}

/// The sum that the entries add to row `r`.
pub open spec fn row_sum(entries: Seq<(u32, u32, i64)>, y: Seq<(u32, i128)>, r: u32) -> int
    decreases entries.len(),
{
    if entries.len() == 0 {
        0
    } else {
        row_sum(entries.drop_last(), y, r) + if entries.last().0 == r {
            term(y, entries.last())
        } else {
            0
        }
    }
}

/// The value fits an `i128`.
pub open spec fn fits(v: int) -> bool {
    i128::MIN <= v <= i128::MAX
}

/// Adding entry `i` leaves 128 bits: its term or its row's sum does.
pub open spec fn overflows_at(
    entries: Seq<(u32, u32, i64)>,
    y: Seq<(u32, i128)>,
    i: int,
) -> bool {
    !fits(term(y, entries[i])) || !fits(row_sum(entries.take(i + 1), y, entries[i].0))
}

/// Entry `i` is the first that leaves 128 bits.
pub open spec fn first_overflow(
    entries: Seq<(u32, u32, i64)>,
    y: Seq<(u32, i128)>,
    i: int,
) -> bool {
    &&& 0 <= i < entries.len()
    &&& overflows_at(entries, y, i)
    &&& forall|j: int| 0 <= j < i ==> !#[trigger] overflows_at(entries, y, j)
}

/// The map that `y` denotes.
spec fn denotes(m: Map<u32, i128>, y: Seq<(u32, i128)>) -> bool {
    forall|c: u32|
        #[trigger] value_at(y, c) == if m.contains_key(c) {
            Some(m[c])
        } else {
            None
        }
}

/// The sums of the rows that the first entries have touched.
spec fn sums(
    acc: Map<u32, i128>,
    touched: Seq<u32>,
    entries: Seq<(u32, u32, i64)>,
    y: Seq<(u32, i128)>,
) -> bool {
    &&& forall|r: u32| #[trigger] row_sum(entries, y, r) == if acc.contains_key(r) {
        acc[r] as int
    } else {
        0
    }
    &&& forall|k: int| 0 <= k < touched.len() ==> acc.contains_key(#[trigger] touched[k])
    &&& forall|r: u32| #[trigger] acc.contains_key(r) ==> touched.contains(r)
}

/// Is `y`, sparse over the columns of `a`, in the nullspace of `a`: does every row's
/// weighted sum vanish? `Ok(None)` accepts, `Ok(Some(row))` names the lowest violated
/// row.
pub fn check_nullvector(a: Triplets<'_>, y: &[(u32, i128)]) -> (res: Result<
    Option<u32>,
    VerifyOverflow,
>)
    ensures
        res matches Err(e) ==> exists|i: int|
            #[trigger] first_overflow(a.entries@, y@, i) && e == (VerifyOverflow {
                row: a.entries@[i].0,
                col: a.entries@[i].1,
            }),
        res is Ok ==> forall|i: int|
            0 <= i < a.entries@.len() ==> !#[trigger] overflows_at(a.entries@, y@, i),
        res matches Ok(None) ==> forall|r: u32| #[trigger] row_sum(a.entries@, y@, r) == 0,
        res matches Ok(Some(row)) ==> row_sum(a.entries@, y@, row) != 0 && forall|r: u32|
            r < row ==> #[trigger] row_sum(a.entries@, y@, r) == 0,
{
    let mut lookup: HashMap<u32, i128> = HashMap::new();
    let mut i: usize = 0;
    proof {
        assert(y@.take(0) =~= Seq::empty());
    }
    while i < y.len()
        invariant
            i <= y@.len(),
            denotes(lookup@, y@.take(i as int)),
        decreases y@.len() - i,
    {
        let (c, v): (u32, i128) = y[i];
        let ghost cut = y@.take(i + 1);
        let ghost before = lookup@;
        lookup.insert(c, v);
        proof {
            assert(cut.drop_last() =~= y@.take(i as int));
            assert(cut.last() == (c, v));
            assert forall|d: u32| #[trigger] value_at(cut, d) == if lookup@.contains_key(d) {
                Some(lookup@[d])
            } else {
                None
            } by {
                assert(value_at(y@.take(i as int), d) == if before.contains_key(d) {
                    Some(before[d])
                } else {
                    None
                });
            }
        }
        i += 1;
    }
    assert(y@.take(i as int) =~= y@);
    let mut acc: HashMap<u32, i128> = HashMap::new();
    let mut touched: Vec<u32> = Vec::new();
    i = 0;
    proof {
        assert(a.entries@.take(0) =~= Seq::empty());
    }
    while i < a.entries.len()
        invariant
            i <= a.entries@.len(),
            denotes(lookup@, y@),
            sums(acc@, touched@, a.entries@.take(i as int), y@),
            forall|j: int| 0 <= j < i ==> !#[trigger] overflows_at(a.entries@, y@, j),
        decreases a.entries@.len() - i,
    {
        let (r, c, w): (u32, u32, i64) = a.entries[i];
        let ghost cut = a.entries@.take(i + 1);
        let ghost before = a.entries@.take(i as int);
        let ghost acc0 = acc@;
        let ghost touched0 = touched@;
        proof {
            assert(cut.drop_last() =~= before);
            assert(cut.last() == a.entries@[i as int]);
            assert(value_at(y@, c) == if lookup@.contains_key(c) {
                Some(lookup@[c])
            } else {
                None
            });
        }
        match lookup.get(&c) {
            None => {
                proof {
                    assert(term(y@, a.entries@[i as int]) == 0);
                    assert forall|s: u32| #[trigger] row_sum(cut, y@, s) == if acc@.contains_key(
                        s,
                    ) {
                        acc@[s] as int
                    } else {
                        0
                    } by {
                        assert(row_sum(before, y@, s) == if acc@.contains_key(s) {
                            acc@[s] as int
                        } else {
                            0
                        });
                    }
                    assert(row_sum(cut, y@, r) == row_sum(before, y@, r));
                    assert(!overflows_at(a.entries@, y@, i as int));
                }
            },
            Some(yc) => {
                let t: i128 = match yc.checked_mul(w as i128) {
                    None => {
                        assert(overflows_at(a.entries@, y@, i as int));
                        assert(first_overflow(a.entries@, y@, i as int));
                        return Err(VerifyOverflow { row: r, col: c });
                    },
                    Some(t) => t,
                };
                let cur: i128 = match acc.get(&r) {
                    Some(v) => *v,
                    None => {
                        touched.push(r);
                        0
                    },
                };
                proof {
                    assert(row_sum(before, y@, r) == cur);
                    assert(row_sum(cut, y@, r) == cur + t);
                }
                let sum: i128 = match cur.checked_add(t) {
                    None => {
                        assert(overflows_at(a.entries@, y@, i as int));
                        assert(first_overflow(a.entries@, y@, i as int));
                        return Err(VerifyOverflow { row: r, col: c });
                    },
                    Some(s) => s,
                };
                acc.insert(r, sum);
                proof {
                    assert forall|s: u32| #[trigger] row_sum(cut, y@, s) == if acc@.contains_key(
                        s,
                    ) {
                        acc@[s] as int
                    } else {
                        0
                    } by {
                        assert(row_sum(before, y@, s) == if acc0.contains_key(s) {
                            acc0[s] as int
                        } else {
                            0
                        });
                    }
                    assert forall|s: u32| #[trigger] acc@.contains_key(s) implies touched@.contains(
                        s,
                    ) by {
                        if acc0.contains_key(s) {
                            assert(touched0.contains(s));
                            let k: int = choose|k: int| 0 <= k < touched0.len() && touched0[k] == s;
                            assert(touched@[k] == s);
                        } else {
                            assert(s == r);
                            assert(touched@[touched0.len() as int] == s);
                        }
                    }
                    assert forall|k: int| 0 <= k < touched@.len() implies acc@.contains_key(
                        #[trigger] touched@[k],
                    ) by {
                        if k < touched0.len() {
                            assert(acc0.contains_key(touched0[k]));
                        }
                    }
                    assert(!overflows_at(a.entries@, y@, i as int));
                }
            },
        }
        i += 1;
    }
    assert(a.entries@.take(i as int) =~= a.entries@);
    let mut violated: Option<u32> = None;
    let mut k: usize = 0;
    while k < touched.len()
        invariant
            k <= touched@.len(),
            sums(acc@, touched@, a.entries@, y@),
            violated matches Some(row) ==> row_sum(a.entries@, y@, row) != 0 && forall|j: int|
                0 <= j < k && #[trigger] touched@[j] < row ==> row_sum(
                    a.entries@,
                    y@,
                    touched@[j],
                ) == 0,
            violated is None ==> forall|j: int|
                0 <= j < k ==> row_sum(a.entries@, y@, #[trigger] touched@[j]) == 0,
        decreases touched@.len() - k,
    {
        let r: u32 = touched[k];
        assert(acc@.contains_key(touched@[k as int]));
        let v: i128 = match acc.get(&r) {
            Some(v) => *v,
            None => 0,
        };
        assert(row_sum(a.entries@, y@, r) == v);
        let lower: bool = match violated {
            None => true,
            Some(row) => r < row,
        };
        if v != 0 && lower {
            violated = Some(r);
        }
        k += 1;
    }
    proof {
        assert forall|r: u32|
            (violated is None || r < violated->Some_0) implies #[trigger] row_sum(
            a.entries@,
            y@,
            r,
        ) == 0 by {
            if acc@.contains_key(r) {
                assert(touched@.contains(r));
                let j: int = choose|j: int| 0 <= j < touched@.len() && touched@[j] == r;
                assert(row_sum(a.entries@, y@, touched@[j]) == 0);
            }
        }
    }
    Ok(violated)
}

/// The dense vector that `y` stands for.
pub open spec fn dense_vector(y: Seq<(u32, i128)>, n: int) -> Seq<int> {
    Seq::new(
        n as nat,
        |c: int|
            match value_at(y, c as u32) {
                Some(v) => v as int,
                None => 0,
            },
    )
}

/// The sum that the check forms for a row is the exact dot product of that row of the
/// matrix with the vector.
pub proof fn law_check_is_dot(a: Triplets<'_>, y: Seq<(u32, i128)>, r: u32)
    requires
        a.in_range(),
        r < a.rows,
        a.cols <= u32::MAX,
    ensures
        row_sum(a.entries@, y, r) == linalg::dot(
            a.mat()[r as int],
            dense_vector(y, a.cols as int),
        ),
{
    lemma_sum_is_dot(a.entries@, y, r, a.rows as int, a.cols as int);
    let n: int = a.cols as int;
    assert(a.mat()[r as int] =~= Seq::new(
        n as nat,
        |c: int| profile::entry_sum(a.entries@, r as int, c),
    ));
}

proof fn lemma_sum_is_dot(
    entries: Seq<(u32, u32, i64)>,
    y: Seq<(u32, i128)>,
    r: u32,
    rows: int,
    n: int,
)
    requires
        0 <= n <= u32::MAX,
        forall|i: int|
            0 <= i < entries.len() ==> super::entry_in_range(#[trigger] entries[i], rows, n),
    ensures
        row_sum(entries, y, r) == linalg::dot(
            Seq::new(n as nat, |c: int| profile::entry_sum(entries, r as int, c)),
            dense_vector(y, n),
        ),
    decreases entries.len(),
{
    let row: Seq<int> = Seq::new(n as nat, |c: int| profile::entry_sum(entries, r as int, c));
    let z: Seq<int> = dense_vector(y, n);
    if entries.len() == 0 {
        linalg::lemma_dot_zero_row(row, z, n);
    } else {
        let prev: Seq<(u32, u32, i64)> = entries.drop_last();
        let e: (u32, u32, i64) = entries.last();
        assert(super::entry_in_range(entries[entries.len() - 1], rows, n));
        assert forall|i: int| 0 <= i < prev.len() implies super::entry_in_range(
            #[trigger] prev[i],
            rows,
            n,
        ) by {
            assert(prev[i] == entries[i]);
        }
        lemma_sum_is_dot(prev, y, r, rows, n);
        let row0: Seq<int> = Seq::new(n as nat, |c: int| profile::entry_sum(prev, r as int, c));
        if e.0 == r {
            assert forall|c: int| 0 <= c < n && c != e.1 implies row[c] == row0[c] by {}
            lemma_dot_bump(row0, row, z, e.1 as int, e.2 as int, n);
            assert(z[e.1 as int] == match value_at(y, e.1) {
                Some(v) => v as int,
                None => 0,
            });
            assert(e.2 * z[e.1 as int] == term(y, e)) by (nonlinear_arith)
                requires
                    z[e.1 as int] == match value_at(y, e.1) {
                        Some(v) => v as int,
                        None => 0,
                    },
                    term(y, e) == match value_at(y, e.1) {
                        Some(v) => v * e.2,
                        None => 0,
                    },
            ;
        } else {
            assert(row =~= row0);
        }
    }
}

/// Adding `w` to one coordinate of a row adds `w` times that coordinate of the vector.
pub proof fn lemma_dot_bump(a: Seq<int>, b: Seq<int>, z: Seq<int>, c: int, w: int, k: int)
    requires
        a.len() == b.len(),
        a.len() == z.len(),
        0 <= c < a.len(),
        0 <= k <= a.len(),
        b[c] == a[c] + w,
        forall|j: int| 0 <= j < a.len() && j != c ==> b[j] == a[j],
    ensures
        linalg::dot_upto(b, z, k) == linalg::dot_upto(a, z, k) + if c < k {
            w * z[c]
        } else {
            0
        },
    decreases k,
{
    if k > 0 {
        lemma_dot_bump(a, b, z, c, w, k - 1);
        if c == k - 1 {
            assert((a[c] + w) * z[c] == a[c] * z[c] + w * z[c]) by (nonlinear_arith);
        }
    }
}

} // verus!
