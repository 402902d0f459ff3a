//! Writing the parts of the wire format.

use super::super::scalar;
use super::super::scalar::WitRat;
use super::super::simplex;
use super::super::simplex::{members, VSet};
use super::super::types;
use super::super::types::{Dtype, TensorType};
use super::layout;
use super::refusal::CanonRefusal;
use vstd::prelude::*;

verus! {

/// The lowest `n` bytes of a number.
fn w_le(out: &mut Vec<u8>, x: u64, n: usize)
    ensures
        final(out)@ == old(out)@ + layout::le(x as nat, n as nat),
{
    let ghost start: Seq<u8> = out@;
    let mut rest: u64 = x;
    let mut i: usize = 0;
    assert(layout::le(rest as nat, n as nat) == Seq::<u8>::empty() + layout::le(rest as nat, n as nat)) by {
        assert(Seq::<u8>::empty() + layout::le(rest as nat, n as nat) =~= layout::le(
            rest as nat,
            n as nat,
        ));
    }
    let ghost mut done: Seq<u8> = Seq::empty();
    assert(out@ =~= start + done);
    while i < n
        invariant
            i <= n,
            out@ == start + done,
            layout::le(x as nat, n as nat) == done + layout::le(rest as nat, (n - i) as nat),
        decreases n - i,
    {
        let low: u8 = (rest % 256) as u8;
        let ghost tail: Seq<u8> = layout::le(rest as nat / 256, (n - i - 1) as nat);
        out.push(low);
        proof {
            assert(layout::le(rest as nat, (n - i) as nat) == seq![low] + tail);
            assert(done + (seq![low] + tail) =~= done.push(low) + tail);
            assert(out@ =~= start + done.push(low));
            done = done.push(low);
        }
        rest = rest / 256;
        i = i + 1;
    }
    assert(done + layout::le(rest as nat, 0) =~= done);
}

/// Four bytes.
pub fn w_u32(out: &mut Vec<u8>, x: u32)
    ensures
        final(out)@ == old(out)@ + layout::le32(x),
{
    w_le(out, x as u64, 4);
}

/// Eight bytes.
pub fn w_u64(out: &mut Vec<u8>, x: u64)
    ensures
        final(out)@ == old(out)@ + layout::le64(x),
{
    w_le(out, x, 8);
}

/// Bytes as they are.
pub fn w_bytes(out: &mut Vec<u8>, s: &[u8])
    ensures
        final(out)@ == old(out)@ + s@,
{
    let ghost start: Seq<u8> = out@;
    let mut i: usize = 0;
    assert(out@ =~= start + s@.take(0));
    while i < s.len()
        invariant
            i <= s@.len(),
            out@ == start + s@.take(i as int),
        decreases s@.len() - i,
    {
        out.push(s[i]);
        i = i + 1;
        assert(out@ =~= start + s@.take(i as int));
    }
    assert(s@.take(i as int) =~= s@);
}

/// One item more is spelled behind the others.
pub proof fn lemma_spell_next<T>(f: spec_fn(T) -> Seq<u8>, xs: Seq<T>, i: int)
    requires
        0 <= i < xs.len(),
    ensures
        layout::spell_all(f, xs.take(i + 1)) == layout::spell_all(f, xs.take(i)) + f(xs[i]),
{
    assert(xs.take(i + 1).drop_last() =~= xs.take(i));
}

/// Nothing behind nothing.
pub proof fn lemma_spell_none<T>(f: spec_fn(T) -> Seq<u8>, xs: Seq<T>, start: Seq<u8>)
    ensures
        start + layout::spell_all(f, xs.take(0)) == start,
{
    assert(start + layout::spell_all(f, xs.take(0)) =~= start);
}

/// Appending is associative.
pub proof fn lemma_append(s: Seq<u8>, t: Seq<u8>, u: Seq<u8>)
    ensures
        s + t + u == s + (t + u),
{
    assert(s + t + u =~= s + (t + u));
}

/// Wires or indices.
pub fn w_wires(out: &mut Vec<u8>, ws: &Vec<u32>)
    ensures
        final(out)@ == old(out)@ + layout::spell_wires(ws@),
{
    let ghost start: Seq<u8> = out@;
    let ghost f = |w: u32| layout::le32(w);
    let mut i: usize = 0;
    proof {
        lemma_spell_none(f, ws@, start);
    }
    while i < ws.len()
        invariant
            f == |w: u32| layout::le32(w),
            i <= ws@.len(),
            out@ == start + layout::spell_all(f, ws@.take(i as int)),
        decreases ws@.len() - i,
    {
        w_u32(out, ws[i]);
        proof {
            lemma_spell_next(f, ws@, i as int);
            lemma_append(
                start,
                layout::spell_all(f, ws@.take(i as int)),
                layout::le32(ws@[i as int]),
            );
        }
        i = i + 1;
    }
    assert(ws@.take(i as int) =~= ws@);
}

/// Wires or indices behind their count.
pub fn w_counted(out: &mut Vec<u8>, ws: &Vec<u32>)
    ensures
        final(out)@ == old(out)@ + layout::spell_counted(ws@),
{
    let ghost start: Seq<u8> = out@;
    w_u32(out, ws.len() as u32);
    w_wires(out, ws);
    proof {
        lemma_append(start, layout::le32(ws@.len() as u32), layout::spell_wires(ws@));
    }
}

/// A shape, or extents behind their count.
pub fn w_shape(out: &mut Vec<u8>, ws: &Vec<u64>)
    ensures
        final(out)@ == old(out)@ + layout::spell_shape(ws@),
{
    let ghost first: Seq<u8> = out@;
    w_u32(out, ws.len() as u32);
    let ghost start: Seq<u8> = out@;
    let ghost f = |w: u64| layout::le64(w);
    let mut i: usize = 0;
    proof {
        lemma_spell_none(f, ws@, start);
    }
    while i < ws.len()
        invariant
            f == |w: u64| layout::le64(w),
            i <= ws@.len(),
            out@ == start + layout::spell_all(f, ws@.take(i as int)),
        decreases ws@.len() - i,
    {
        w_u64(out, ws[i]);
        proof {
            lemma_spell_next(f, ws@, i as int);
            lemma_append(
                start,
                layout::spell_all(f, ws@.take(i as int)),
                layout::le64(ws@[i as int]),
            );
        }
        i = i + 1;
    }
    proof {
        assert(ws@.take(i as int) =~= ws@);
        lemma_append(first, layout::le32(ws@.len() as u32), layout::spell_words(ws@));
    }
}

/// An element type.
pub fn w_dtype(out: &mut Vec<u8>, d: Dtype)
    ensures
        final(out)@ == old(out)@ + layout::spell_dtype(d),
{
    let ghost start: Seq<u8> = out@;
    out.push(d.kind.to_u8());
    out.push(d.sign.to_u8());
    out.push(d.ext.to_u8());
    out.push(0);
    assert(out@ =~= start + layout::spell_dtype(d));
}

/// A tensor type.
pub fn w_type(out: &mut Vec<u8>, t: &TensorType)
    ensures
        final(out)@ == old(out)@ + layout::spell_type(t@),
{
    let ghost start: Seq<u8> = out@;
    w_dtype(out, t.dtype);
    w_shape(out, &t.shape);
    proof {
        lemma_append(start, layout::spell_dtype(t.dtype), layout::spell_shape(t.shape@));
    }
}

/// A rational in lowest terms; another one is refused, and nothing is written.
pub fn w_q_element(out: &mut Vec<u8>, q: &WitRat) -> (r: Result<(), CanonRefusal>)
    ensures
        match r {
            Ok(_) => scalar::canonical(q@) && final(out)@ == old(out)@ + layout::spell_rational(q@),
            Err(e) => !scalar::canonical(q@) && final(out)@ == old(out)@ && e
                == CanonRefusal::EncodeNonCanonicalRational,
        },
{
    if !q.is_canonical() {
        return Err(CanonRefusal::EncodeNonCanonicalRational);
    }
    let ghost start: Seq<u8> = out@;
    let nb: &Vec<u8> = q.num().to_signed_bytes_le();
    let db: Vec<u8> = q.den().to_magnitude_le();
    w_u32(out, nb.len() as u32);
    w_u32(out, db.len() as u32);
    w_bytes(out, nb.as_slice());
    w_bytes(out, db.as_slice());
    proof {
        let s1: Seq<u8> = layout::le32(nb@.len() as u32);
        let s2: Seq<u8> = layout::le32(db@.len() as u32);
        lemma_append(start, s1, s2);
        lemma_append(start, s1 + s2, nb@);
        lemma_append(start, s1 + s2 + nb@, db@);
    }
    Ok(())
}

/// Rationals in lowest terms; others are refused.
pub fn w_rationals(out: &mut Vec<u8>, qs: &Vec<WitRat>) -> (r: Result<(), CanonRefusal>)
    ensures
        match r {
            Ok(_) => layout::all_canonical(types::views(qs@)) && final(out)@ == old(out)@
                + layout::spell_rationals(types::views(qs@)),
            Err(e) => !layout::all_canonical(types::views(qs@)) && e
                == CanonRefusal::EncodeNonCanonicalRational,
        },
{
    let ghost start: Seq<u8> = out@;
    let ghost all: Seq<scalar::Ratio> = types::views(qs@);
    let ghost f = |q: scalar::Ratio| layout::spell_rational(q);
    let mut i: usize = 0;
    proof {
        lemma_spell_none(f, all, start);
    }
    while i < qs.len()
        invariant
            f == |q: scalar::Ratio| layout::spell_rational(q),
            all == types::views(qs@),
            i <= qs@.len(),
            forall|j: int| 0 <= j < i ==> scalar::canonical(#[trigger] all[j]),
            out@ == start + layout::spell_all(f, all.take(i as int)),
        decreases qs@.len() - i,
    {
        assert(all[i as int] == qs@[i as int]@);
        w_q_element(out, &qs[i])?;
        proof {
            lemma_spell_next(f, all, i as int);
            lemma_append(
                start,
                layout::spell_all(f, all.take(i as int)),
                layout::spell_rational(all[i as int]),
            );
        }
        i = i + 1;
    }
    assert(all.take(i as int) =~= all);
    Ok(())
}

/// The value of bit `j`.
fn bit_value(j: u32) -> (r: u8)
    requires
        j < 8,
    ensures
        r == layout::bit_value(j as int),
{
    if j == 0 {
        1
    } else if j == 1 {
        2
    } else if j == 2 {
        4
    } else if j == 3 {
        8
    } else if j == 4 {
        16
    } else if j == 5 {
        32
    } else if j == 6 {
        64
    } else {
        128
    }
}

/// Marking one more place adds its value to its byte.
proof fn lemma_mark(
    f: spec_fn(int) -> bool,
    g: spec_fn(int) -> bool,
    base: int,
    m: int,
)
    requires
        forall|i: int| base <= i < base + 8 && i != m ==> #[trigger] g(i) == f(i),
        !f(m),
        g(m),
    ensures
        base <= m < base + 8 ==> layout::packed_byte(g, base) == layout::packed_byte(f, base)
            + layout::bit_value(m - base),
        !(base <= m < base + 8) ==> layout::packed_byte(g, base) == layout::packed_byte(f, base),
{
    assert(g(base) == f(base) || base == m);
    assert(g(base + 1) == f(base + 1) || base + 1 == m);
    assert(g(base + 2) == f(base + 2) || base + 2 == m);
    assert(g(base + 3) == f(base + 3) || base + 3 == m);
    assert(g(base + 4) == f(base + 4) || base + 4 == m);
    assert(g(base + 5) == f(base + 5) || base + 5 == m);
    assert(g(base + 6) == f(base + 6) || base + 6 == m);
    assert(g(base + 7) == f(base + 7) || base + 7 == m);
}

/// A set among `n` places, from its members.
pub fn w_bitset(out: &mut Vec<u8>, list: &Vec<u32>, n: u32)
    requires
        simplex::ascending(list@),
        layout::fits(list@.to_set(), n),
    ensures
        final(out)@ == old(out)@ + layout::spell_set(list@.to_set(), n),
{
    let ghost start: Seq<u8> = out@;
    let nbytes: u32 = n / 8 + if n % 8 != 0 {
        1
    } else {
        0
    };
    let from: usize = out.len();
    let mut k: u32 = 0;
    while k < nbytes
        invariant
            k <= nbytes,
            out@.len() == start.len() + k,
            forall|i: int| 0 <= i < start.len() ==> out@[i] == start[i],
            forall|i: int| start.len() <= i < out@.len() ==> out@[i] == 0,
        decreases nbytes - k,
    {
        out.push(0);
        k = k + 1;
    }
    let mut i: usize = 0;
    assert forall|j: int| start.len() <= j < out@.len() implies #[trigger] out@[j]
        == layout::spell_set(list@.take(0).to_set(), n)[j - start.len()] by {
        let f = layout::in_set(list@.take(0).to_set());
        assert(forall|x: int| !#[trigger] f(x));
    }
    while i < list.len()
        invariant
            simplex::ascending(list@),
            layout::fits(list@.to_set(), n),
            nbytes == layout::bitset_len(n as int),
            from == start.len(),
            out@.len() == start.len() + nbytes,
            i <= list@.len(),
            forall|j: int| 0 <= j < start.len() ==> out@[j] == start[j],
            forall|j: int|
                start.len() <= j < out@.len() ==> #[trigger] out@[j] == layout::spell_set(
                    list@.take(i as int).to_set(),
                    n,
                )[j - start.len()],
        decreases list@.len() - i,
    {
        let m: u32 = list[i];
        let ghost had: Set<u32> = list@.take(i as int).to_set();
        let ghost has: Set<u32> = list@.take(i + 1).to_set();
        let ghost f = layout::in_set(had);
        let ghost g = layout::in_set(has);
        proof {
            assert(list@.to_set().contains(m));
            assert(m < 8 * nbytes);
            assert(!had.contains(m)) by {
                let front: Seq<u32> = list@.take(i as int);
                if front.contains(m) {
                    let j: int = choose|j: int| 0 <= j < front.len() && front[j] == m;
                    assert(list@[j] < list@[i as int]);
                }
            }
            let front: Seq<u32> = list@.take(i as int);
            let next: Seq<u32> = list@.take(i + 1);
            assert(next =~= front.push(m));
            assert forall|w: u32| has.contains(w) == (had.contains(w) || w == m) by {
                if front.contains(w) {
                    let j: int = choose|j: int| 0 <= j < front.len() && front[j] == w;
                    assert(next[j] == w);
                }
                if w == m {
                    assert(next[i as int] == m);
                }
                if next.contains(w) {
                    let j: int = choose|j: int| 0 <= j < next.len() && next[j] == w;
                    if j < i {
                        assert(front[j] == w);
                    }
                }
            }
            let old_set: Seq<u8> = layout::spell_set(had, n);
            let new_set: Seq<u8> = layout::spell_set(has, n);
            assert forall|b: int| 0 <= b < nbytes implies #[trigger] new_set[b] == old_set[b] + (
            if b == m / 8 {
                layout::bit_value((m % 8) as int)
            } else {
                0
            }) by {
                lemma_mark(f, g, 8 * b, m as int);
            }
            assert(new_set[(m / 8) as int] <= 255);
        }
        assert(from + m / 8 < out.len());
        let at: usize = from + (m / 8) as usize;
        let value: u8 = out[at] + bit_value(m % 8);
        out.set(at, value);
        i = i + 1;
    }
    proof {
        assert(list@.take(i as int) =~= list@);
        let s: Seq<u8> = layout::spell_set(list@.to_set(), n);
        assert forall|j: int| 0 <= j < out@.len() implies out@[j] == (start + s)[j] by {
            if j >= start.len() {
                assert(out@[j] == s[j - start.len()]);
            }
        }
        assert(out@ =~= start + s);
    }
}

/// A set among `n` places.
pub fn w_set(out: &mut Vec<u8>, s: &VSet, n: u32)
    requires
        layout::fits(s@, n),
    ensures
        final(out)@ == old(out)@ + layout::spell_set(s@, n),
{
    let list: Vec<u32> = members(s);
    w_bitset(out, &list, n);
}

} // verus!
