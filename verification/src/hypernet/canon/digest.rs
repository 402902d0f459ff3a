//! Content digests.

use super::complete;
use super::layout;
use super::reorder;
use super::refusal::CanonRefusal;
use super::super::graph::Hypernet;
use super::super::graph;
use crate::text::push;
use sha2::{Digest, Sha256};
use vstd::prelude::*;

verus! {

/// The SHA-256 digest of bytes.
pub uninterp spec fn sha256(data: Seq<u8>) -> Seq<u8>;

/// Calls `Sha256::digest` of the `sha2` crate. The result is a function of the bytes alone,
/// and has thirty-two bytes.
#[verifier::external_body]
fn sha256_of(data: &[u8]) -> (r: [u8; 32])
    ensures
        r@ == sha256(data@),
{
    Sha256::digest(data).into()
}

/// The content digest of a graph: the SHA-256 digest of its canonical bytes.
#[derive(Debug, Clone, Copy, PartialEq, Eq, Hash, PartialOrd, Ord)]
pub struct HypernetDigest(pub [u8; 32]);

/// The order in which a complex lists its simplices is no part of the digest.
pub proof fn law_simplex_order_keeps_digest(x: graph::NetModel, y: graph::NetModel)
    requires
        reorder::reordered(x, y),
    ensures
        sha256(layout::spell(x)) == sha256(layout::spell(y)),
        layout::refusal(x) == layout::refusal(y),
        layout::writable(x) == layout::writable(y),
{
    reorder::law_simplex_order_keeps_bytes(x, y);
}

/// The hexadecimal form of a digest has two lowercase digits for each byte, in the order of
/// the bytes, the higher four bits first.
pub proof fn law_hex_digits(b: Seq<u8>, i: int)
    requires
        0 <= i < b.len(),
    ensures
        hex(b).len() == 2 * b.len(),
        ({
            let digits = seq![
                '0', '1', '2', '3', '4', '5', '6', '7', '8', '9', 'a', 'b', 'c', 'd', 'e', 'f',
            ];
            &&& hex(b)[2 * i] == digits[b[i] as int / 16]
            &&& hex(b)[2 * i + 1] == digits[b[i] as int % 16]
        }),
{
    assert((2 * i) / 2 == i && (2 * i) % 2 == 0);
    assert((2 * i + 1) / 2 == i && (2 * i + 1) % 2 == 1);
    let v: int = b[i] as int;
    assert(0 <= v / 16 < 16 && 0 <= v % 16 < 16);
    lemma_hex_digit(v / 16);
    lemma_hex_digit(v % 16);
}

/// The sixteen digits.
proof fn lemma_hex_digit(v: int)
    requires
        0 <= v < 16,
    ensures
        hex_digit(v) == (seq![
            '0', '1', '2', '3', '4', '5', '6', '7', '8', '9', 'a', 'b', 'c', 'd', 'e', 'f',
        ])[v],
{
    if v == 0 {
    } else if v == 1 {
    } else if v == 2 {
    } else if v == 3 {
    } else if v == 4 {
    } else if v == 5 {
    } else if v == 6 {
    } else if v == 7 {
    } else if v == 8 {
    } else if v == 9 {
    } else if v == 10 {
    } else if v == 11 {
    } else if v == 12 {
    } else if v == 13 {
    } else if v == 14 {
    } else {
    }
}

/// A text is a digest exactly where it is sixty-four hexadecimal digits of either case, and
/// the case makes no difference.
pub proof fn law_hex_case(s: Seq<char>, t: Seq<char>)
    requires
        is_hex(s),
        t.len() == s.len(),
        forall|i: int|
            0 <= i < s.len() ==> #[trigger] t[i] == s[i] || ('a' <= s[i] <= 'f' && t[i] as int
                == s[i] as int - 32) || ('A' <= s[i] <= 'F' && t[i] as int == s[i] as int + 32),
    ensures
        is_hex(t),
        unhex(t) == unhex(s),
        forall|i: int|
            0 <= i < s.len() ==> '0' <= #[trigger] s[i] <= '9' || 'a' <= s[i] <= 'f' || 'A' <= s[i]
                <= 'F',
{
    assert forall|i: int| 0 <= i < s.len() implies hex_value(#[trigger] t[i]) == hex_value(
        s[i],
    ) by {
        assert(hex_value(s[i]) >= 0);
    }
    assert forall|i: int| 0 <= i < s.len() implies '0' <= #[trigger] s[i] <= '9' || 'a' <= s[i]
        <= 'f' || 'A' <= s[i] <= 'F' by {
        assert(hex_value(s[i]) >= 0);
    }
    assert forall|i: int| 0 <= i < 64 implies hex_value(#[trigger] t[i]) >= 0 by {
        assert(hex_value(s[i]) >= 0);
    }
    assert(unhex(t) =~= unhex(s)) by {
        assert forall|i: int| 0 <= i < s.len() / 2 implies unhex(t)[i] == unhex(s)[i] by {
            assert(hex_value(t[2 * i]) == hex_value(s[2 * i]));
            assert(hex_value(t[2 * i + 1]) == hex_value(s[2 * i + 1]));
        }
    }
}

/// A lowercase hexadecimal digit.
pub open spec fn hex_digit(v: int) -> char {
    if v < 10 {
        (v + 48) as char
    } else {
        (v + 87) as char
    }
}

/// The value of a hexadecimal digit of either case, or a negative number.
pub open spec fn hex_value(c: char) -> int {
    if '0' <= c <= '9' {
        c as int - 48
    } else if 'a' <= c <= 'f' {
        c as int - 87
    } else if 'A' <= c <= 'F' {
        c as int - 55
    } else {
        -1
    }
}

/// The hexadecimal form of bytes.
pub open spec fn hex(b: Seq<u8>) -> Seq<char> {
    Seq::new(
        2 * b.len(),
        |i: int|
            if i % 2 == 0 {
                hex_digit(b[i / 2] as int / 16)
            } else {
                hex_digit(b[i / 2] as int % 16)
            },
    )
}

/// Sixty-four hexadecimal digits.
pub open spec fn is_hex(s: Seq<char>) -> bool {
    &&& s.len() == 64
    &&& forall|i: int| 0 <= i < 64 ==> hex_value(#[trigger] s[i]) >= 0
}

/// The bytes that hexadecimal digits spell.
pub open spec fn unhex(s: Seq<char>) -> Seq<u8> {
    Seq::new(
        s.len() / 2,
        |i: int| (16 * hex_value(s[2 * i]) + hex_value(s[2 * i + 1])) as u8,
    )
}

/// A digest is read back from its hexadecimal form.
pub proof fn law_hex_round_trip(b: Seq<u8>)
    requires
        b.len() == 32,
    ensures
        is_hex(hex(b)),
        unhex(hex(b)) == b,
{
    let s: Seq<char> = hex(b);
    assert forall|i: int| 0 <= i < 64 implies hex_value(#[trigger] s[i]) >= 0 by {
        let v: int = b[i / 2] as int;
        assert(0 <= v / 16 < 16 && 0 <= v % 16 < 16);
    }
    assert forall|i: int| 0 <= i < 32 implies #[trigger] unhex(s)[i] == b[i] by {
        let v: int = b[i] as int;
        assert((2 * i) / 2 == i && (2 * i + 1) / 2 == i);
        assert((2 * i) % 2 == 0 && (2 * i + 1) % 2 == 1);
        assert(s[2 * i] == hex_digit(v / 16));
        assert(s[2 * i + 1] == hex_digit(v % 16));
        assert(16 * (v / 16) + v % 16 == v);
    }
    assert(unhex(s) =~= b);
}

/// Graphs that have the same canonical form have the same digest.
pub proof fn law_same_form_same_digest(x: graph::NetModel, y: graph::NetModel)
    requires
        complete::canonical_form(x) == complete::canonical_form(y),
    ensures
        sha256(layout::spell(x)) == sha256(layout::spell(y)),
{
    complete::law_canonical_form_same_bytes(x);
    complete::law_canonical_form_same_bytes(y);
}

/// A lowercase hexadecimal digit.
fn digit(v: u8) -> (c: char)
    requires
        v < 16,
    ensures
        c == hex_digit(v as int),
{
    if v < 10 {
        (v + 48) as char
    } else {
        (v + 87) as char
    }
}

/// The value of a hexadecimal digit of either case.
fn value(c: char) -> (r: Option<u8>)
    ensures
        match r {
            Some(v) => v < 16 && v == hex_value(c),
            None => hex_value(c) < 0,
        },
{
    if '0' <= c && c <= '9' {
        Some((c as u32 - 48) as u8)
    } else if 'a' <= c && c <= 'f' {
        Some((c as u32 - 87) as u8)
    } else if 'A' <= c && c <= 'F' {
        Some((c as u32 - 55) as u8)
    } else {
        None
    }
}

impl HypernetDigest {
    /// The lowercase hexadecimal form.
    pub fn to_hex(&self) -> (r: String)
        ensures
            r@ == hex(self.0@),
    {
        let mut s: String = String::new();
        let mut i: usize = 0;
        assert(s@ =~= hex(self.0@).take(0));
        while i < 32
            invariant
                i <= 32,
                s@ == hex(self.0@).take(2 * i),
            decreases 32 - i,
        {
            let b: u8 = self.0[i];
            let ghost all: Seq<char> = hex(self.0@);
            proof {
                assert((2 * i) / 2 == i && (2 * i + 1) / 2 == i);
                assert((2 * i) % 2 == 0 && (2 * i + 1) % 2 == 1);
                assert(all[2 * i] == hex_digit(b as int / 16));
                assert(all[2 * i + 1] == hex_digit(b as int % 16));
            }
            push(&mut s, digit(b / 16));
            push(&mut s, digit(b % 16));
            i = i + 1;
            assert(s@ =~= all.take(2 * i));
        }
        assert(hex(self.0@).take(64) =~= hex(self.0@));
        s
    }

    /// The digest of sixty-four hexadecimal digits of either case.
    pub fn from_hex(s: &str) -> (r: Option<HypernetDigest>)
        ensures
            match r {
                Some(d) => is_hex(s@) && d.0@ == unhex(s@),
                None => !is_hex(s@),
            },
    {
        if s.unicode_len() != 64 {
            return None;
        }
        let mut out: [u8; 32] = [0; 32];
        let mut i: usize = 0;
        while i < 32
            invariant
                i <= 32,
                s@.len() == 64,
                forall|j: int| 0 <= j < 2 * i ==> hex_value(#[trigger] s@[j]) >= 0,
                forall|j: int| 0 <= j < i ==> #[trigger] out@[j] == unhex(s@)[j],
            decreases 32 - i,
        {
            let hi: u8 = match value(s.get_char(2 * i)) {
                Some(v) => v,
                None => return None,
            };
            let lo: u8 = match value(s.get_char(2 * i + 1)) {
                Some(v) => v,
                None => return None,
            };
            out[i] = hi * 16 + lo;
            i = i + 1;
        }
        assert(out@ =~= unhex(s@));
        Some(HypernetDigest(out))
    }
}

impl Hypernet {
    /// The content digest of a graph: the SHA-256 digest of its canonical bytes.
    pub fn digest(&self) -> (r: Result<HypernetDigest, CanonRefusal>)
        requires
            layout::writable(self@),
        ensures
            match r {
                Ok(d) => layout::refusal(self@) is None && d.0@ == sha256(layout::spell(self@)),
                Err(e) => layout::refusal(self@) == Some(e@),
            },
    {
        let bytes: Vec<u8> = self.canonical_bytes()?;
        Ok(HypernetDigest(sha256_of(bytes.as_slice())))
    }
}

} // verus!
