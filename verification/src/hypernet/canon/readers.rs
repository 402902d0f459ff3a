//! Reading the parts of the wire format.

use super::super::app::Wire;
use super::super::int_bytes;
use super::super::scalar::{copy_bytes, WitInt, WitRat};
use super::super::simplex::VSet;
use super::super::types;
use super::super::types::{Dtype, Ext, Kind, Sign, TensorType};
use super::bytes;
use super::layout;
use super::refusal::CanonRefusal;
use vstd::prelude::*;
use vstd::slice::slice_subrange;

verus! {

broadcast use {
    vstd::std_specs::btree::group_btree_axioms,
    vstd::laws_cmp::group_laws_cmp,
    vstd::laws_eq::group_laws_eq,
};

/// What a reader returns, as the contracts speak of it.
pub open spec fn seen<T: View>(r: Result<(T, usize), CanonRefusal>) -> layout::Parsed<T::V> {
    match r {
        Ok((x, o)) => Ok((x@, o as int)),
        Err(e) => Err(e@),
    }
}

/// What a reader of lists returns, as the contracts speak of it.
pub open spec fn seen_list<T: View>(r: Result<(Vec<T>, usize), CanonRefusal>) -> layout::Parsed<
    Seq<T::V>,
> {
    match r {
        Ok((x, o)) => Ok((types::views(x@), o as int)),
        Err(e) => Err(e@),
    }
}

/// The offset behind what was read lies within the bytes.
pub open spec fn ends<T>(r: Result<(T, usize), CanonRefusal>, off: usize, b: Seq<u8>) -> bool {
    r matches Ok((x, o)) ==> off <= o <= b.len()
}

/// The lesser of two numbers.
pub open spec fn lesser(x: int, y: int) -> int {
    if x <= y {
        x
    } else {
        y
    }
}

/// One more than the number of items of at least `min_size` bytes, or of one byte where
/// that is zero, that `remaining` bytes could hold.
pub open spec fn most_items(remaining: int, min_size: int) -> int {
    remaining / (if min_size > 0 {
        min_size
    } else {
        1
    }) + 1
}

/// The capacity to set aside for `n` declared items of at least `min_size` bytes: as many as
/// are declared, but no more than [`most_items`] allows of the bytes that remain, and no
/// more than a `usize` counts.
pub fn cap(b: &[u8], off: usize, n: u64, min_size: usize) -> (r: usize)
    requires
        off <= b@.len(),
    ensures
        r == lesser(
            lesser(n as int, most_items(b@.len() - off, min_size as int)),
            usize::MAX as int,
        ),
{
    let least: usize = if min_size > 0 {
        min_size
    } else {
        1
    };
    let room: usize = (b.len() - off) / least;
    if n <= room as u64 {
        n as usize
    } else if room < usize::MAX {
        room + 1
    } else {
        room
    }
}

/// The next `n` bytes.
pub fn r_take<'a>(b: &'a [u8], off: usize, n: usize, what: &'static str) -> (r: Result<
    (&'a [u8], usize),
    CanonRefusal,
>)
    requires
        off <= b@.len(),
    ensures
        ends(r, off, b@),
        seen(r) == layout::p_take(b@, off as int, n as int, what),
{
    let available: usize = b.len() - off;
    if n > available {
        return Err(CanonRefusal::Truncated { offset: off, needed: n, available, what });
    }
    Ok((slice_subrange(b, off, off + n), off + n))
}

/// One byte.
pub fn r_u8(b: &[u8], off: usize, what: &'static str) -> (r: Result<(u8, usize), CanonRefusal>)
    requires
        off <= b@.len(),
    ensures
        ends(r, off, b@),
        seen(r) == layout::p_u8(b@, off as int, what),
{
    let (s, o): (&[u8], usize) = r_take(b, off, 1, what)?;
    proof {
        reveal_with_fuel(int_bytes::magnitude, 2);
        assert(s@.drop_first().len() == 0);
    }
    Ok((s[0], o))
}

/// Two bytes.
pub fn r_u16(b: &[u8], off: usize, what: &'static str) -> (r: Result<(u16, usize), CanonRefusal>)
    requires
        off <= b@.len(),
    ensures
        ends(r, off, b@),
        seen(r) == layout::p_u16(b@, off as int, what),
{
    let (s, o): (&[u8], usize) = r_take(b, off, 2, what)?;
    proof {
        reveal_with_fuel(int_bytes::magnitude, 3);
    }
    Ok((s[0] as u16 + 256 * (s[1] as u16), o))
}

/// The number that up to eight bytes spell.
fn word(s: &[u8]) -> (r: u64)
    requires
        s@.len() <= 8,
    ensures
        r == int_bytes::magnitude(s@),
{
    proof {
        bytes::lemma_pow256();
    }
    let mut i: usize = s.len();
    let mut r: u64 = 0;
    while i > 0
        invariant
            i <= s@.len() <= 8,
            r == int_bytes::magnitude(s@.skip(i as int)),
        decreases i,
    {
        i = i - 1;
        proof {
            reveal_with_fuel(int_bytes::magnitude, 2);
            let t: Seq<u8> = s@.skip(i as int);
            assert(t.drop_first() =~= s@.skip(i + 1));
            bytes::lemma_le_unique(t);
            lemma_pow256_fits(t.len());
        }
        r = s[i] as u64 + 256 * r;
    }
    assert(s@.skip(0) =~= s@);
    r
}

/// Eight bytes fit into a word.
proof fn lemma_pow256_fits(n: nat)
    requires
        n <= 8,
    ensures
        int_bytes::pow256(n) <= 0x1_0000_0000_0000_0000,
{
    reveal_with_fuel(int_bytes::pow256, 9);
}

/// Four bytes.
pub fn r_u32(b: &[u8], off: usize, what: &'static str) -> (r: Result<(u32, usize), CanonRefusal>)
    requires
        off <= b@.len(),
    ensures
        ends(r, off, b@),
        seen(r) == layout::p_u32(b@, off as int, what),
{
    let (s, o): (&[u8], usize) = r_take(b, off, 4, what)?;
    Ok((word(s) as u32, o))
}

/// Eight bytes.
pub fn r_u64(b: &[u8], off: usize, what: &'static str) -> (r: Result<(u64, usize), CanonRefusal>)
    requires
        off <= b@.len(),
    ensures
        ends(r, off, b@),
        seen(r) == layout::p_u64(b@, off as int, what),
{
    let (s, o): (&[u8], usize) = r_take(b, off, 8, what)?;
    Ok((word(s), o))
}

/// A list that fails early fails.
pub proof fn lemma_fails<T>(item: spec_fn(int, Seq<T>) -> layout::Parsed<T>, off: int, i: int, n: int)
    requires
        i <= n,
        layout::many(item, off, i) is Err,
    ensures
        layout::many(item, off, n) == layout::many(item, off, i),
    decreases n - i,
{
    if i < n {
        lemma_fails(item, off, i, n - 1);
    }
}

/// `x` is an item that `f` has read.
pub open spec fn comes_from<T, F: Fn(usize) -> Result<(T, usize), CanonRefusal>>(
    f: F,
    x: T,
) -> bool {
    exists|o: usize, end: usize| call_ensures(f, (o,), Ok::<(T, usize), CanonRefusal>((x, end)))
}

/// `n` items that are read one by one.
pub fn r_many<T: View, F: Fn(usize) -> Result<(T, usize), CanonRefusal>>(
    b: &[u8],
    off: usize,
    n: u64,
    min_size: usize,
    f: F,
    Ghost(item): Ghost<spec_fn(int, Seq<T::V>) -> layout::Parsed<T::V>>,
) -> (r: Result<(Vec<T>, usize), CanonRefusal>)
    requires
        off <= b@.len(),
        forall|o: usize| o <= b@.len() ==> call_requires(f, (o,)),
        forall|o: usize, x: Result<(T, usize), CanonRefusal>| #[trigger]
            call_ensures(f, (o,), x) ==> ends(x, o, b@),
        forall|o: usize, x: Result<(T, usize), CanonRefusal>, prev: Seq<T::V>| #[trigger]
            call_ensures(f, (o,), x) ==> seen(x) == #[trigger] item(o as int, prev),
    ensures
        ends(r, off, b@),
        seen_list(r) == layout::many(item, off as int, n as int),
        r matches Ok((xs, o)) ==> forall|i: int|
            0 <= i < xs@.len() ==> comes_from(f, #[trigger] xs@[i]),
{
    let mut xs: Vec<T> = Vec::with_capacity(cap(b, off, n, min_size));
    let mut o: usize = off;
    let mut i: u64 = 0;
    assert(types::views(xs@) =~= Seq::<T::V>::empty());
    while i < n
        invariant
            i <= n,
            off <= o <= b@.len(),
            layout::many(item, off as int, i as int) == Ok::<
                (Seq<T::V>, int),
                layout::CanonFault,
            >((types::views(xs@), o as int)),
            forall|j: int| 0 <= j < xs@.len() ==> comes_from(f, #[trigger] xs@[j]),
            forall|o: usize| o <= b@.len() ==> call_requires(f, (o,)),
            forall|o: usize, x: Result<(T, usize), CanonRefusal>| #[trigger]
                call_ensures(f, (o,), x) ==> ends(x, o, b@),
            forall|o: usize, x: Result<(T, usize), CanonRefusal>, prev: Seq<T::V>| #[trigger]
                call_ensures(f, (o,), x) ==> seen(x) == #[trigger] item(o as int, prev),
        decreases n - i,
    {
        let got: Result<(T, usize), CanonRefusal> = f(o);
        assert(seen(got) == item(o as int, types::views(xs@)));
        match got {
            Ok((x, o2)) => {
                let ghost before: Seq<T::V> = types::views(xs@);
                assert(comes_from(f, x));
                xs.push(x);
                o = o2;
                i = i + 1;
                assert(types::views(xs@) =~= before.push(x@));
            },
            Err(e) => {
                proof {
                    assert(layout::many(item, off as int, i + 1) is Err);
                    lemma_fails(item, off as int, i + 1, n as int);
                }
                return Err(e);
            },
        }
    }
    Ok((xs, o))
}

/// `n` wires or indices.
pub fn r_wires(b: &[u8], off: usize, n: u32, what: &'static str) -> (r: Result<
    (Vec<u32>, usize),
    CanonRefusal,
>)
    requires
        off <= b@.len(),
    ensures
        ends(r, off, b@),
        seen(r) == layout::many(layout::wire_item(b@, what), off as int, n as int),
{
    let f = |o: usize| -> (x: Result<(u32, usize), CanonRefusal>)
        requires
            o <= b@.len(),
        ensures
            ends(x, o, b@),
            seen(x) == layout::p_u32(b@, o as int, what),
        { r_u32(b, o, what) };
    let r: Result<(Vec<u32>, usize), CanonRefusal> = r_many(
        b,
        off,
        n as u64,
        4,
        f,
        Ghost(layout::wire_item(b@, what)),
    );
    assert(r is Ok ==> types::views(r->Ok_0.0@) =~= r->Ok_0.0@);
    r
}

/// Wires or indices behind their count.
pub fn r_counted(b: &[u8], off: usize, count: &'static str, what: &'static str) -> (r: Result<
    (Vec<u32>, usize),
    CanonRefusal,
>)
    requires
        off <= b@.len(),
    ensures
        ends(r, off, b@),
        seen(r) == layout::p_counted(b@, off as int, count, what),
{
    let (n, o): (u32, usize) = r_u32(b, off, count)?;
    r_wires(b, o, n, what)
}

/// Extents behind their count.
pub fn r_words(b: &[u8], off: usize, count: &'static str, what: &'static str) -> (r: Result<
    (Vec<u64>, usize),
    CanonRefusal,
>)
    requires
        off <= b@.len(),
    ensures
        ends(r, off, b@),
        seen(r) == layout::p_words(b@, off as int, count, what),
{
    let (n, o): (u32, usize) = r_u32(b, off, count)?;
    let f = |o: usize| -> (x: Result<(u64, usize), CanonRefusal>)
        requires
            o <= b@.len(),
        ensures
            ends(x, o, b@),
            seen(x) == layout::p_u64(b@, o as int, what),
        { r_u64(b, o, what) };
    let r: Result<(Vec<u64>, usize), CanonRefusal> = r_many(
        b,
        o,
        n as u64,
        8,
        f,
        Ghost(layout::word_item(b@, what)),
    );
    assert(r is Ok ==> types::views(r->Ok_0.0@) =~= r->Ok_0.0@);
    r
}

/// A shape.
pub fn r_shape(b: &[u8], off: usize) -> (r: Result<(Vec<u64>, usize), CanonRefusal>)
    requires
        off <= b@.len(),
    ensures
        ends(r, off, b@),
        seen(r) == layout::p_shape(b@, off as int),
{
    r_words(b, off, "shape rank", "shape extent")
}

/// An element type.
pub fn r_dtype(b: &[u8], off: usize) -> (r: Result<(Dtype, usize), CanonRefusal>)
    requires
        off <= b@.len(),
    ensures
        ends(r, off, b@),
        match r {
            Ok((d, o)) => layout::p_dtype(b@, off as int) == Ok::<(Dtype, int), layout::CanonFault>(
                (d, o as int),
            ),
            Err(e) => layout::p_dtype(b@, off as int) == Err::<(Dtype, int), layout::CanonFault>(
                e@,
            ),
        },
{
    let (s, o): (&[u8], usize) = r_take(b, off, 4, "dtype triple")?;
    let kind: Kind = match Kind::from_u8(s[0]) {
        Some(k) => k,
        None => return Err(
            CanonRefusal::UnknownByte { offset: off, what: "dtype kind", got: s[0] },
        ),
    };
    let sign: Sign = match Sign::from_u8(s[1]) {
        Some(k) => k,
        None => return Err(
            CanonRefusal::UnknownByte { offset: off + 1, what: "dtype sign", got: s[1] },
        ),
    };
    let ext: Ext = match Ext::from_u8(s[2]) {
        Some(k) => k,
        None => return Err(
            CanonRefusal::UnknownByte { offset: off + 2, what: "dtype ext", got: s[2] },
        ),
    };
    if s[3] != 0 {
        return Err(CanonRefusal::UnknownByte { offset: off + 3, what: "dtype pad", got: s[3] });
    }
    Ok((Dtype { kind, sign, ext }, o))
}

/// A tensor type.
pub fn r_type(b: &[u8], off: usize) -> (r: Result<(TensorType, usize), CanonRefusal>)
    requires
        off <= b@.len(),
    ensures
        ends(r, off, b@),
        seen(r) == layout::p_type(b@, off as int),
{
    let (dtype, o): (Dtype, usize) = r_dtype(b, off)?;
    let (shape, o2): (Vec<u64>, usize) = r_shape(b, o)?;
    Ok((TensorType { dtype, shape }, o2))
}

/// A rational: two lengths, the numerator, the denominator.
pub fn r_q_element(b: &[u8], off: usize) -> (r: Result<(WitRat, usize), CanonRefusal>)
    requires
        off <= b@.len(),
    ensures
        ends(r, off, b@),
        seen(r) == layout::p_rational(b@, off as int),
{
    let (num_len, o1): (u32, usize) = r_u32(b, off, "rational numerator length")?;
    let (den_len, o2): (u32, usize) = r_u32(b, o1, "rational denominator length")?;
    if num_len == 0 || den_len == 0 {
        return Err(
            CanonRefusal::NonCanonicalRational { offset: off, why: "zero-length component" },
        );
    }
    let (nb, o3): (&[u8], usize) = r_take(b, o2, num_len as usize, "rational numerator bytes")?;
    let (db, o4): (&[u8], usize) = r_take(b, o3, den_len as usize, "rational denominator bytes")?;
    let n: usize = nb.len();
    if n > 1 && ((nb[n - 1] == 0 && nb[n - 2] < 128) || (nb[n - 1] == 255 && nb[n - 2] >= 128)) {
        return Err(
            CanonRefusal::NonCanonicalRational {
                offset: off,
                why: "non-minimal numerator encoding",
            },
        );
    }
    let num: WitInt = WitInt::from_signed_bytes_le(copy_bytes(nb));
    let den: WitInt = WitInt::from_magnitude_le(copy_bytes(db));
    if den.is_zero() {
        return Err(
            CanonRefusal::NonCanonicalRational { offset: off, why: "denominator < 1" },
        );
    }
    if db[db.len() - 1] == 0 {
        return Err(
            CanonRefusal::NonCanonicalRational {
                offset: off,
                why: "non-minimal denominator encoding",
            },
        );
    }
    if !num.gcd(&den).is_one() {
        return Err(
            CanonRefusal::NonCanonicalRational { offset: off, why: "gcd(num, den) != 1" },
        );
    }
    Ok((WitRat(num, den), o4))
}

/// `n` rationals.
pub fn r_rationals(b: &[u8], off: usize, n: u64) -> (r: Result<(Vec<WitRat>, usize), CanonRefusal>)
    requires
        off <= b@.len(),
    ensures
        ends(r, off, b@),
        seen_list(r) == layout::many(layout::rational_item(b@), off as int, n as int),
{
    let f = |o: usize| -> (x: Result<(WitRat, usize), CanonRefusal>)
        requires
            o <= b@.len(),
        ensures
            ends(x, o, b@),
            seen(x) == layout::p_rational(b@, o as int),
        { r_q_element(b, o) };
    r_many(b, off, n, 9, f, Ghost(layout::rational_item(b@)))
}

/// Each bit is worth twice the one below it.
proof fn lemma_next_bit(x: int, j: int)
    requires
        0 <= x < 256,
        0 <= j < 7,
    ensures
        (x / layout::bit_value(j)) / 2 == x / layout::bit_value(j + 1),
{
}

/// A set of places below `n`.
pub fn r_bitset(b: &[u8], off: usize, n: u32) -> (r: Result<(VSet, usize), CanonRefusal>)
    requires
        off <= b@.len(),
    ensures
        ends(r, off, b@),
        seen(r) == layout::p_set(b@, off as int, n),
{
    let nbytes: usize = (n / 8 + if n % 8 != 0 {
        1
    } else {
        0
    }) as usize;
    let (s, o): (&[u8], usize) = r_take(b, off, nbytes, "bitset")?;
    let mut set: VSet = VSet::new();
    let mut k: usize = 0;
    while k < s.len()
        invariant
            s@.len() == nbytes == layout::bitset_len(n as int),
            k <= s@.len(),
            s@ == b@.subrange(off as int, o as int),
            layout::p_take(b@, off as int, nbytes as int, "bitset") == Ok::<
                (Seq<u8>, int),
                layout::CanonFault,
            >((s@, o as int)),
            forall|w: u32| #[trigger]
                set@.contains(w) <==> w < 8 * k && layout::bit_at(s@, w as int),
            forall|i: int| n <= i < 8 * k ==> !#[trigger] layout::bit_at(s@, i),
        decreases s@.len() - k,
    {
        let mut rest: u8 = s[k];
        let mut j: u32 = 0;
        while j < 8
            invariant
                s@.len() == nbytes == layout::bitset_len(n as int),
                k < s@.len(),
                j <= 8,
                j < 8 ==> rest == s@[k as int] as int / layout::bit_value(j as int),
                layout::p_take(b@, off as int, nbytes as int, "bitset") == Ok::<
                    (Seq<u8>, int),
                    layout::CanonFault,
                >((s@, o as int)),
                forall|w: u32| #[trigger]
                    set@.contains(w) <==> w < 8 * k + j && layout::bit_at(s@, w as int),
                forall|i: int| n <= i < 8 * k + j ==> !#[trigger] layout::bit_at(s@, i),
            decreases 8 - j,
        {
            let i: u32 = k as u32 * 8 + j;
            assert(i as int / 8 == k && i as int % 8 == j);
            assert(layout::bit_at(s@, i as int) == (rest % 2 == 1));
            if rest % 2 == 1 {
                if i >= n {
                    assert(layout::stray(s@, n as int));
                    return Err(CanonRefusal::BitsetOverflow { offset: off, n });
                }
                set.insert(i);
            }
            proof {
                if j < 7 {
                    lemma_next_bit(s@[k as int] as int, j as int);
                }
            }
            rest = rest / 2;
            j = j + 1;
        }
        k = k + 1;
    }
    proof {
        assert(!layout::stray(s@, n as int));
        assert(set@ =~= layout::places(s@, n as int));
    }
    Ok((set, o))
}

/// Where a wire that was read at `off` has no type, the refusal.
pub fn r_wtype<'a>(ts: &'a Vec<TensorType>, w: Wire, off: usize) -> (r: Result<
    &'a TensorType,
    CanonRefusal,
>)
    ensures
        match r {
            Ok(t) => layout::p_wtype(types::views(ts@), w, off as int) == Ok::<
                types::TypeModel,
                layout::CanonFault,
            >(t@),
            Err(e) => layout::p_wtype(types::views(ts@), w, off as int) == Err::<
                types::TypeModel,
                layout::CanonFault,
            >(e@),
        },
{
    if (w as usize) < ts.len() {
        Ok(&ts[w as usize])
    } else {
        Err(
            CanonRefusal::DecodeWireOutOfRange { offset: off, wire: w, table_len: ts.len() as u32 },
        )
    }
}

} // verus!
