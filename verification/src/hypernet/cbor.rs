//! Integers as CBOR values: a native integer where it fits, else a tagged byte string.
//!
//! A bignum payload is the big-endian magnitude behind leading zero bytes up to a length of
//! 17, so that a reader never takes it for a native integer.

use super::int_bytes;
use super::scalar::WitInt;
use vstd::prelude::*;

verus! {

/// A CBOR value, as far as integers are concerned.
#[derive(Debug, PartialEq, Eq)]
pub enum CborValue {
    /// A native integer.
    Integer(i128),
    /// A byte string.
    Bytes(Vec<u8>),
    /// A tagged value.
    Tag(u64, Box<CborValue>),
    /// Any other value.
    Other,
}

/// Why a CBOR value is no integer.
#[derive(Debug, Clone, Copy, PartialEq, Eq, Structural)]
pub enum CborRefusal {
    /// The payload of a bignum tag is not a byte string.
    PayloadNotBytes {
        /// The tag, 2 or 3.
        tag: u64,
    },
    /// The value is neither an integer nor a bignum tag.
    NotAnInteger,
    /// The tag is not a bignum tag.
    NotABignumTag {
        /// The tag.
        tag: u64,
    },
}

/// The shortest payload.
pub const PAYLOAD_MIN: usize = 17;

/// The integers that CBOR holds natively.
pub open spec fn native(x: int) -> bool {
    -0x1_0000_0000_0000_0000 <= x < 0x1_0000_0000_0000_0000
}

/// The magnitude that big-endian bytes spell.
pub open spec fn magnitude_be(b: Seq<u8>) -> nat {
    int_bytes::magnitude(b.reverse())
}

/// The payload of a magnitude: its shortest big-endian form behind zero bytes.
pub open spec fn payload(m: nat) -> Seq<u8> {
    let be = int_bytes::magnitude_bytes(m).reverse();
    if be.len() >= PAYLOAD_MIN {
        be
    } else {
        Seq::new((PAYLOAD_MIN - be.len()) as nat, |i: int| 0u8) + be
    }
}

/// The value that an integer is written as.
pub open spec fn is_cbor_of(v: CborValue, x: int) -> bool {
    if native(x) {
        v matches CborValue::Integer(i) && i == x
    } else if x >= 0 {
        v matches CborValue::Tag(2, inner) && *inner matches CborValue::Bytes(b) && b@ == payload(
            x as nat,
        )
    } else {
        v matches CborValue::Tag(3, inner) && *inner matches CborValue::Bytes(b) && b@ == payload(
            (-1 - x) as nat,
        )
    }
}

/// The integer that a bignum tag and its payload stand for.
pub open spec fn tagged(tag: u64, b: Seq<u8>) -> Result<int, CborRefusal> {
    if tag == 2 {
        Ok(magnitude_be(b) as int)
    } else if tag == 3 {
        Ok(-1 - magnitude_be(b))
    } else {
        Err(CborRefusal::NotABignumTag { tag })
    }
}

/// The integer that a value stands for.
pub open spec fn integer_of(v: CborValue) -> Result<int, CborRefusal> {
    match v {
        CborValue::Integer(i) => Ok(i as int),
        CborValue::Tag(tag, inner) => if tag == 2 || tag == 3 {
            match *inner {
                CborValue::Bytes(b) => tagged(tag, b@),
                _ => Err(CborRefusal::PayloadNotBytes { tag }),
            }
        } else {
            Err(CborRefusal::NotAnInteger)
        },
        _ => Err(CborRefusal::NotAnInteger),
    }
}

/// Zero bytes on top do not change a magnitude.
proof fn lemma_zeros_on_top(s: Seq<u8>, n: nat)
    ensures
        int_bytes::magnitude(s + Seq::new(n, |i: int| 0u8)) == int_bytes::magnitude(s),
    decreases n,
{
    let z: Seq<u8> = Seq::new(n, |i: int| 0u8);
    if n == 0 {
        assert(s + z =~= s);
    } else {
        let fewer: Seq<u8> = Seq::new((n - 1) as nat, |i: int| 0u8);
        lemma_zeros_on_top(s, (n - 1) as nat);
        assert(s + z =~= (s + fewer).push(0));
        int_bytes::lemma_magnitude_push_zero(s + fewer);
    }
}

/// A payload spells the magnitude that it was made from.
pub proof fn lemma_payload(m: nat)
    ensures
        magnitude_be(payload(m)) == m,
        payload(m).len() >= PAYLOAD_MIN,
{
    let le: Seq<u8> = int_bytes::magnitude_bytes(m);
    let be: Seq<u8> = le.reverse();
    int_bytes::lemma_magnitude_bytes(m);
    if be.len() >= PAYLOAD_MIN {
        assert(be.reverse() =~= le);
    } else {
        let n: nat = (PAYLOAD_MIN - be.len()) as nat;
        let z: Seq<u8> = Seq::new(n, |i: int| 0u8);
        lemma_zeros_on_top(le, n);
        assert((z + be).reverse() =~= le + z);
    }
}

/// Reading back what was written gives the integer.
pub proof fn law_cbor_round_trip(v: CborValue, x: int)
    requires
        is_cbor_of(v, x),
    ensures
        integer_of(v) == Ok::<int, CborRefusal>(x),
{
    if !native(x) {
        if x >= 0 {
            lemma_payload(x as nat);
        } else {
            lemma_payload((-1 - x) as nat);
        }
    }
}

/// The number that bytes spell, the highest first.
pub open spec fn big_endian(b: Seq<u8>) -> nat
    decreases b.len(),
{
    if b.len() == 0 {
        0
    } else {
        256 * big_endian(b.drop_last()) + b.last() as nat
    }
}

/// Reading from the highest byte on.
proof fn lemma_big_endian(b: Seq<u8>)
    ensures
        magnitude_be(b) == big_endian(b),
    decreases b.len(),
{
    reveal_with_fuel(int_bytes::magnitude, 2);
    if b.len() > 0 {
        lemma_big_endian(b.drop_last());
        assert(b.reverse().drop_first() =~= b.drop_last().reverse());
        assert(b.reverse()[0] == b.last());
    } else {
        assert(b.reverse().len() == 0);
    }
}

/// How an integer travels: as itself where sixty-four bits and a sign hold it; else under tag
/// 2 as the number itself or, where it is negative, under tag 3 as the number below its
/// absolute value, the highest byte first, in no fewer than seventeen bytes, and with zero
/// bytes in front only to reach seventeen.
pub proof fn law_cbor_form(v: CborValue, x: int)
    requires
        is_cbor_of(v, x),
    ensures
        match v {
            CborValue::Integer(i) => {
                &&& -0x1_0000_0000_0000_0000 <= x < 0x1_0000_0000_0000_0000
                &&& i == x
            },
            CborValue::Tag(tag, inner) => match *inner {
                CborValue::Bytes(b) => {
                    &&& x < -0x1_0000_0000_0000_0000 || x >= 0x1_0000_0000_0000_0000
                    &&& x >= 0 ==> tag == 2 && big_endian(b@) == x
                    &&& x < 0 ==> tag == 3 && big_endian(b@) == -1 - x
                    &&& b@.len() >= 17
                    &&& b@.len() > 17 ==> b@[0] != 0
                },
                _ => false,
            },
            _ => false,
        },
{
    if !native(x) {
        let m: nat = if x >= 0 {
            x as nat
        } else {
            (-1 - x) as nat
        };
        lemma_payload(m);
        lemma_big_endian(payload(m));
        int_bytes::lemma_magnitude_bytes(m);
        let le: Seq<u8> = int_bytes::magnitude_bytes(m);
        assert(le.reverse()[0] == le.last());
    }
}

/// What a tagged byte string stands for, whatever zero bytes stand in front: under tag 2 the
/// number that it spells, the highest byte first; under tag 3 minus that number, less one.
/// No other tag stands for an integer.
pub proof fn law_tagged_bytes(tag: u64, b: Seq<u8>)
    ensures
        tagged(2, b) == Ok::<int, CborRefusal>(big_endian(b) as int),
        tagged(3, b) == Ok::<int, CborRefusal>(-1 - big_endian(b)),
        tag != 2 && tag != 3 ==> tagged(tag, b) == Err::<int, CborRefusal>(
            CborRefusal::NotABignumTag { tag },
        ),
        tagged(tag, seq![0u8] + b) == tagged(tag, b),
{
    lemma_big_endian(b);
    lemma_big_endian(seq![0u8] + b);
    lemma_zero_in_front(b);
}

/// A zero byte in front changes nothing.
proof fn lemma_zero_in_front(b: Seq<u8>)
    ensures
        big_endian(seq![0u8] + b) == big_endian(b),
    decreases b.len(),
{
    reveal_with_fuel(big_endian, 2);
    let z: Seq<u8> = seq![0u8] + b;
    if b.len() > 0 {
        lemma_zero_in_front(b.drop_last());
        assert(z.drop_last() =~= seq![0u8] + b.drop_last());
        assert(z.last() == b.last());
    } else {
        assert(z.drop_last().len() == 0);
        assert(z.last() == 0);
    }
}

/// What a value stands for: an integer for itself, a byte string under tag 2 or 3 for what
/// the tag says, and nothing else for an integer.
pub proof fn law_cbor_reading(v: CborValue)
    ensures
        match v {
            CborValue::Integer(i) => integer_of(v) == Ok::<int, CborRefusal>(i as int),
            CborValue::Tag(tag, inner) => if tag == 2 || tag == 3 {
                match *inner {
                    CborValue::Bytes(b) => integer_of(v) == Ok::<int, CborRefusal>(
                        if tag == 2 {
                            big_endian(b@) as int
                        } else {
                            -1 - big_endian(b@)
                        },
                    ),
                    _ => integer_of(v) == Err::<int, CborRefusal>(
                        CborRefusal::PayloadNotBytes { tag },
                    ),
                }
            } else {
                integer_of(v) == Err::<int, CborRefusal>(CborRefusal::NotAnInteger)
            },
            _ => integer_of(v) == Err::<int, CborRefusal>(CborRefusal::NotAnInteger),
        },
{
    if let CborValue::Tag(tag, inner) = v {
        if let CborValue::Bytes(b) = *inner {
            lemma_big_endian(b@);
        }
    }
}

/// The bytes in reverse.
fn reversed(b: &[u8]) -> (r: Vec<u8>)
    ensures
        r@ == b@.reverse(),
{
    let mut r: Vec<u8> = Vec::new();
    let mut i: usize = b.len();
    while i > 0
        invariant
            i <= b@.len(),
            r@.len() == b@.len() - i,
            forall|j: int| 0 <= j < r@.len() ==> r@[j] == b@[b@.len() - 1 - j],
        decreases i,
    {
        i = i - 1;
        r.push(b[i]);
    }
    assert(r@ =~= b@.reverse());
    r
}

/// The payload of a magnitude given by its shortest little-endian form.
fn payload_of(le: Vec<u8>, Ghost(m): Ghost<nat>) -> (r: Vec<u8>)
    requires
        le@ == int_bytes::magnitude_bytes(m),
    ensures
        r@ == payload(m),
{
    let mut r: Vec<u8> = Vec::new();
    let n: usize = le.len();
    while r.len() + n < PAYLOAD_MIN
        invariant
            n == le@.len(),
            r@.len() == 0 || r@.len() + n <= PAYLOAD_MIN,
            n <= usize::MAX,
            forall|j: int| 0 <= j < r@.len() ==> r@[j] == 0,
        decreases PAYLOAD_MIN - r@.len(),
    {
        r.push(0);
    }
    let ghost zeros: Seq<u8> = r@;
    let mut be: Vec<u8> = reversed(le.as_slice());
    r.append(&mut be);
    assert(r@ =~= payload(m));
    r
}

impl WitInt {
    /// The integer as a native one, where CBOR has it natively.
    fn to_native(&self) -> (r: Option<i128>)
        ensures
            r is Some <==> native(self@),
            r matches Some(i) ==> i == self@,
    {
        let b: &Vec<u8> = self.to_signed_bytes_le();
        let n: usize = b.len();
        proof {
            int_bytes::lemma_signed_bytes(self@);
            reveal_with_fuel(int_bytes::pow256, 10);
            if n > 9 {
                int_bytes::lemma_minimal_far(b@, 9);
            }
        }
        if n > 9 {
            return None;
        }
        let top: u8 = b[n - 1];
        let mut v: i128 = if top < 128 {
            top as i128
        } else {
            top as i128 - 256
        };
        let mut i: usize = n - 1;
        assert(b@.subrange(i as int, n as int) =~= seq![top]);
        while i > 0
            invariant
                0 <= i < n <= 9,
                n == b@.len(),
                v == int_bytes::twos(b@.subrange(i as int, n as int)),
            decreases i,
        {
            proof {
                let s: Seq<u8> = b@.subrange(i as int, n as int);
                int_bytes::lemma_twos_bound(s);
                reveal_with_fuel(int_bytes::pow256, 10);
                let t: Seq<u8> = b@.subrange(i - 1, n as int);
                assert(t.drop_first() =~= s);
            }
            i = i - 1;
            v = b[i] as i128 + 256 * v;
        }
        assert(b@.subrange(0, n as int) =~= b@);
        if v >= -0x1_0000_0000_0000_0000 && v < 0x1_0000_0000_0000_0000 {
            Some(v)
        } else {
            None
        }
    }

    /// The CBOR value that the integer is written as.
    pub fn to_cbor_value(&self) -> (v: CborValue)
        ensures
            is_cbor_of(v, self@),
    {
        if let Some(i) = self.to_native() {
            return CborValue::Integer(i);
        }
        if !self.is_negative() {
            let bytes: Vec<u8> = payload_of(self.to_magnitude_le(), Ghost(self@ as nat));
            CborValue::Tag(2, Box::new(CborValue::Bytes(bytes)))
        } else {
            let n: WitInt = self.complement();
            let bytes: Vec<u8> = payload_of(n.to_magnitude_le(), Ghost(n@ as nat));
            CborValue::Tag(3, Box::new(CborValue::Bytes(bytes)))
        }
    }

    /// The integer of a bignum tag and its payload.
    pub fn from_tagged(tag: u64, bytes: &[u8]) -> (r: Result<WitInt, CborRefusal>)
        ensures
            match tagged(tag, bytes@) {
                Ok(x) => r matches Ok(i) && i@ == x,
                Err(e) => r matches Err(f) && f == e,
            },
    {
        if tag == 2 {
            Ok(WitInt::from_magnitude_le(reversed(bytes)))
        } else if tag == 3 {
            Ok(WitInt::from_magnitude_le(reversed(bytes)).complement())
        } else {
            Err(CborRefusal::NotABignumTag { tag })
        }
    }

    /// The integer that a CBOR value stands for.
    pub fn from_cbor_value(v: &CborValue) -> (r: Result<WitInt, CborRefusal>)
        ensures
            match integer_of(*v) {
                Ok(x) => r matches Ok(i) && i@ == x,
                Err(e) => r matches Err(f) && f == e,
            },
    {
        match v {
            CborValue::Integer(i) => Ok(WitInt::from_i128(*i)),
            CborValue::Tag(tag, inner) => {
                if *tag == 2 || *tag == 3 {
                    match &**inner {
                        CborValue::Bytes(b) => WitInt::from_tagged(*tag, b.as_slice()),
                        _ => Err(CborRefusal::PayloadNotBytes { tag: *tag }),
                    }
                } else {
                    Err(CborRefusal::NotAnInteger)
                }
            },
            _ => Err(CborRefusal::NotAnInteger),
        }
    }
}

} // verus!
