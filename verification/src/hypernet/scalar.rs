//! Exact scalars: arbitrary-precision integers and rationals.

use super::bigint::{div_bytes, gcd_bytes, neg_bytes, text_of_bytes};
use super::bigint;
use super::int_bytes;
use crate::nt;
use crate::text::{push, push_text};
use crate::text;
use std::cmp::Ordering;
use vstd::prelude::*;

verus! {

/// Whether two byte strings are the same.
pub fn same_bytes(a: &[u8], b: &[u8]) -> (r: bool)
    ensures
        r == (a@ == b@),
{
    if a.len() != b.len() {
        return false;
    }
    let mut i: usize = 0;
    while i < a.len()
        invariant
            a@.len() == b@.len(),
            i <= a@.len(),
            forall|j: int| 0 <= j < i ==> a@[j] == b@[j],
        decreases a@.len() - i,
    {
        if a[i] != b[i] {
            return false;
        }
        i = i + 1;
    }
    assert(a@ =~= b@);
    true
}

/// A copy of a byte string.
pub fn copy_bytes(a: &[u8]) -> (r: Vec<u8>)
    ensures
        r@ == a@,
{
    let mut r: Vec<u8> = Vec::new();
    let mut i: usize = 0;
    while i < a.len()
        invariant
            i <= a@.len(),
            r@ == a@.subrange(0, i as int),
        decreases a@.len() - i,
    {
        r.push(a[i]);
        i = i + 1;
        assert(r@ =~= a@.subrange(0, i as int));
    }
    assert(r@ =~= a@);
    r
}

/// An arbitrary-precision integer. It is held as its shortest two's complement form, least
/// significant byte first, so that equal integers have equal bytes.
#[derive(Debug, Hash)]
pub struct WitInt {
    bytes: Vec<u8>,
}

impl WitInt {
    #[verifier::type_invariant]
    spec fn shortest(self) -> bool {
        int_bytes::minimal(self.bytes@)
    }
}

impl View for WitInt {
    type V = int;

    closed spec fn view(&self) -> int {
        int_bytes::twos(self.bytes@)
    }
}

impl Clone for WitInt {
    fn clone(&self) -> (r: Self)
        ensures
            r@ == self@,
    {
        proof {
            use_type_invariant(&*self);
        }
        WitInt { bytes: copy_bytes(self.bytes.as_slice()) }
    }
}

impl From<i64> for WitInt {
    fn from(x: i64) -> (r: WitInt)
        ensures
            r@ == x,
    {
        WitInt::from_i64(x)
    }
}

impl vstd::std_specs::convert::FromSpecImpl<i64> for WitInt {
    open spec fn obeys_from_spec() -> bool {
        false
    }

    open spec fn from_spec(x: i64) -> WitInt {
        choose|w: WitInt| w@ == x
    }
}

impl PartialEq for WitInt {
    fn eq(&self, other: &WitInt) -> (r: bool) {
        proof {
            use_type_invariant(&*self);
            use_type_invariant(&*other);
            int_bytes::lemma_minimal_unique(self.bytes@);
            int_bytes::lemma_minimal_unique(other.bytes@);
        }
        same_bytes(self.bytes.as_slice(), other.bytes.as_slice())
    }
}

impl vstd::std_specs::cmp::PartialEqSpecImpl for WitInt {
    open spec fn obeys_eq_spec() -> bool {
        true
    }

    open spec fn eq_spec(&self, other: &WitInt) -> bool {
        self@ == other@
    }
}

impl PartialOrd for WitInt {
    fn partial_cmp(&self, other: &WitInt) -> (r: Option<Ordering>) {
        if *self == *other {
            Some(Ordering::Equal)
        } else if bigint::less_bytes(&self.bytes, &other.bytes) {
            Some(Ordering::Less)
        } else {
            Some(Ordering::Greater)
        }
    }
}

impl vstd::std_specs::cmp::PartialOrdSpecImpl for WitInt {
    open spec fn obeys_partial_cmp_spec() -> bool {
        true
    }

    open spec fn partial_cmp_spec(&self, other: &WitInt) -> Option<Ordering> {
        if self@ < other@ {
            Some(Ordering::Less)
        } else if self@ == other@ {
            Some(Ordering::Equal)
        } else {
            Some(Ordering::Greater)
        }
    }
}

impl Eq for WitInt {

}

impl WitInt {
    /// The integer that two's complement bytes spell, least significant byte first; zero for
    /// no bytes.
    pub fn from_signed_bytes_le(bytes: Vec<u8>) -> (r: WitInt)
        ensures
            r@ == int_bytes::twos(bytes@),
    {
        let mut b: Vec<u8> = bytes;
        if b.len() == 0 {
            b.push(0);
        }
        while b.len() > 1 && ((b[b.len() - 1] == 0 && b[b.len() - 2] < 128) || (b[b.len() - 1]
            == 255 && b[b.len() - 2] >= 128))
            invariant
                b@.len() > 0,
                int_bytes::twos(b@) == int_bytes::twos(bytes@),
            decreases b@.len(),
        {
            proof {
                int_bytes::lemma_drop_redundant(b@);
            }
            let ghost before: Seq<u8> = b@;
            b.pop();
            assert(b@ =~= before.drop_last());
        }
        WitInt { bytes: b }
    }

    /// The integer that a magnitude spells, least significant byte first.
    pub fn from_magnitude_le(bytes: Vec<u8>) -> (r: WitInt)
        ensures
            r@ == int_bytes::magnitude(bytes@),
    {
        let mut b: Vec<u8> = bytes;
        if b.len() == 0 || b[b.len() - 1] >= 128 {
            proof {
                int_bytes::lemma_magnitude_push_zero(b@);
            }
            b.push(0);
        }
        proof {
            int_bytes::lemma_twos_magnitude(b@);
        }
        Self::from_signed_bytes_le(b)
    }

    /// The shortest two's complement form, least significant byte first.
    pub fn to_signed_bytes_le(&self) -> (r: &Vec<u8>)
        ensures
            r@ == int_bytes::signed_bytes(self@),
    {
        proof {
            use_type_invariant(&*self);
            int_bytes::lemma_minimal_unique(self.bytes@);
        }
        &self.bytes
    }

    /// The shortest form of a positive integer as a magnitude, least significant byte first.
    pub fn to_magnitude_le(&self) -> (r: Vec<u8>)
        requires
            self@ > 0,
        ensures
            r@ == int_bytes::magnitude_bytes(self@ as nat),
    {
        proof {
            use_type_invariant(&*self);
            int_bytes::lemma_twos_sign(self.bytes@);
            int_bytes::lemma_twos_magnitude(self.bytes@);
        }
        let mut b: Vec<u8> = copy_bytes(self.bytes.as_slice());
        let n: usize = b.len();
        if b[n - 1] == 0 {
            proof {
                if n == 1 {
                    int_bytes::lemma_magnitude_zero(b@);
                }
                assert(b@ =~= b@.drop_last().push(0));
                int_bytes::lemma_magnitude_push_zero(b@.drop_last());
            }
            b.pop();
        }
        proof {
            int_bytes::lemma_magnitude_unique(b@);
        }
        b
    }

    /// The integer of an unsigned double word.
    pub fn from_u128(x: u128) -> (r: WitInt)
        ensures
            r@ == x,
    {
        let mut b: Vec<u8> = Vec::new();
        let mut rest: u128 = x;
        while rest > 0
            invariant
                x == int_bytes::magnitude(b@) + int_bytes::pow256(b@.len()) * rest,
            decreases rest,
        {
            let low: u8 = (rest % 256) as u8;
            let ghost before: Seq<u8> = b@;
            let ghost had: u128 = rest;
            b.push(low);
            rest = rest / 256;
            proof {
                lemma_push_top(before, low);
                let p: int = int_bytes::pow256(before.len());
                assert(int_bytes::pow256(b@.len()) == 256 * p) by {
                    assert((b@.len() - 1) as nat == before.len());
                }
                assert(p * low + (256 * p) * (had / 256) == p * had) by (nonlinear_arith)
                    requires
                        had == 256 * (had / 256) + low,
                ;
            }
        }
        assert(int_bytes::pow256(b@.len()) * 0 == 0) by (nonlinear_arith);
        Self::from_magnitude_le(b)
    }

    /// The integer of a signed double word.
    pub fn from_i128(x: i128) -> (r: WitInt)
        ensures
            r@ == x,
    {
        if x >= 0 {
            Self::from_u128(x as u128)
        } else {
            Self::from_u128((-1 - x) as u128).complement()
        }
    }

    /// The integer of a signed word.
    pub fn from_i64(x: i64) -> (r: WitInt)
        ensures
            r@ == x,
    {
        Self::from_i128(x as i128)
    }

    /// `-1 - x`.
    pub fn complement(&self) -> (r: WitInt)
        ensures
            r@ == -1 - self@,
    {
        proof {
            use_type_invariant(&*self);
            int_bytes::lemma_complement(self.bytes@);
        }
        let mut b: Vec<u8> = Vec::new();
        let mut i: usize = 0;
        while i < self.bytes.len()
            invariant
                i <= self.bytes@.len(),
                b@ == int_bytes::complement(self.bytes@).subrange(0, i as int),
            decreases self.bytes@.len() - i,
        {
            b.push(255 - self.bytes[i]);
            i = i + 1;
            assert(b@ =~= int_bytes::complement(self.bytes@).subrange(0, i as int));
        }
        assert(b@ =~= int_bytes::complement(self.bytes@));
        Self::from_signed_bytes_le(b)
    }

    /// `-x`.
    pub fn negate(&self) -> (r: WitInt)
        ensures
            r@ == -self@,
    {
        Self::from_signed_bytes_le(neg_bytes(self.bytes.as_slice()))
    }

    /// The greatest common divisor.
    pub fn gcd(&self, other: &WitInt) -> (r: WitInt)
        ensures
            r@ == nt::gcd(nt::abs(self@) as nat, nt::abs(other@) as nat),
    {
        Self::from_signed_bytes_le(gcd_bytes(self.bytes.as_slice(), other.bytes.as_slice()))
    }

    /// The quotient, rounded toward zero.
    pub fn quotient(&self, other: &WitInt) -> (r: WitInt)
        requires
            other@ != 0,
        ensures
            r@ == bigint::quotient(self@, other@),
    {
        Self::from_signed_bytes_le(div_bytes(self.bytes.as_slice(), other.bytes.as_slice()))
    }

    /// Whether the integer is negative.
    pub fn is_negative(&self) -> (r: bool)
        ensures
            r == (self@ < 0),
    {
        proof {
            use_type_invariant(&*self);
            int_bytes::lemma_twos_sign(self.bytes@);
        }
        self.bytes[self.bytes.len() - 1] >= 128
    }

    /// Whether the integer is the given small one.
    pub fn is_small(&self, x: u8) -> (r: bool)
        requires
            x < 128,
        ensures
            r == (self@ == x),
    {
        proof {
            use_type_invariant(&*self);
            int_bytes::lemma_minimal_unique(self.bytes@);
        }
        self.bytes.len() == 1 && self.bytes[0] == x
    }

    /// Whether the integer is zero.
    pub fn is_zero(&self) -> (r: bool)
        ensures
            r == (self@ == 0),
    {
        self.is_small(0)
    }

    /// Whether the integer is one.
    pub fn is_one(&self) -> (r: bool)
        ensures
            r == (self@ == 1),
    {
        self.is_small(1)
    }

    /// The decimal text.
    pub fn text(&self) -> (r: String)
        ensures
            r@ == text::decimal(self@),
    {
        text_of_bytes(self.bytes.as_slice())
    }
}

/// A byte on top of a magnitude counts by the power of its place.
proof fn lemma_push_top(s: Seq<u8>, top: u8)
    ensures
        int_bytes::magnitude(s.push(top)) == int_bytes::magnitude(s) + int_bytes::pow256(s.len())
            * top,
    decreases s.len(),
{
    let t: Seq<u8> = s.push(top);
    reveal_with_fuel(int_bytes::magnitude, 2);
    if s.len() == 0 {
        assert(t.drop_first().len() == 0);
    } else {
        assert(t.drop_first() =~= s.drop_first().push(top));
        lemma_push_top(s.drop_first(), top);
        let p: int = int_bytes::pow256((s.len() - 1) as nat);
        assert(256 * (p * top) == (256 * p) * top) by (nonlinear_arith);
    }
}

/// A rational as numerator and denominator.
#[verifier::ext_equal]
pub struct Ratio {
    /// The numerator.
    pub num: int,
    /// The denominator.
    pub den: int,
}

/// Lowest terms over a positive denominator; zero is `0/1`.
pub open spec fn canonical(q: Ratio) -> bool {
    q.den >= 1 && nt::gcd(nt::abs(q.num) as nat, q.den as nat) == 1
}

/// The same number.
pub open spec fn same_ratio(a: Ratio, b: Ratio) -> bool {
    a.num * b.den == b.num * a.den
}

/// An exact rational: numerator and denominator. In canonical form the denominator is
/// positive and the two are coprime.
#[derive(Debug, Hash)]
pub struct WitRat(pub WitInt, pub WitInt);

impl View for WitRat {
    type V = Ratio;

    open spec fn view(&self) -> Ratio {
        Ratio { num: self.0@, den: self.1@ }
    }
}

impl Clone for WitRat {
    fn clone(&self) -> (r: Self)
        ensures
            r@ == self@,
    {
        WitRat(self.0.clone(), self.1.clone())
    }
}

impl PartialEq for WitRat {
    fn eq(&self, other: &WitRat) -> (r: bool) {
        self.0 == other.0 && self.1 == other.1
    }
}

impl vstd::std_specs::cmp::PartialEqSpecImpl for WitRat {
    open spec fn obeys_eq_spec() -> bool {
        true
    }

    open spec fn eq_spec(&self, other: &WitRat) -> bool {
        self@ == other@
    }
}

impl Eq for WitRat {

}

/// Coprime numbers have the greatest common divisor one.
proof fn lemma_coprime(a: nat, b: nat, x: int, y: int)
    requires
        x * a + y * b == 1,
    ensures
        nt::gcd(a, b) == 1,
{
    if a == 0 && b == 0 {
        assert(x * 0 + y * 0 == 0) by (nonlinear_arith);
    } else {
        let g: int = nt::gcd(a, b) as int;
        let _xy: (int, int) = nt::bezout(a, b);
        nt::divides_combination(g, a as int, b as int, x, y);
        nt::divides_le(g, 1);
    }
}

/// Dividing by the greatest common divisor leaves coprime numbers.
proof fn lemma_lowest_terms(a: nat, b: nat)
    requires
        b > 0,
    ensures
        nt::gcd(a, b) > 0,
        (a / nt::gcd(a, b)) * nt::gcd(a, b) == a,
        (b / nt::gcd(a, b)) * nt::gcd(a, b) == b,
        b / nt::gcd(a, b) > 0,
        nt::gcd(a / nt::gcd(a, b), b / nt::gcd(a, b)) == 1,
{
    let g: int = nt::gcd(a, b) as int;
    let xy: (int, int) = nt::bezout(a, b);
    let k: int = nt::divides_quotient(g, a as int);
    let l: int = nt::divides_quotient(g, b as int);
    vstd::arithmetic::div_mod::lemma_fundamental_div_mod_converse(a as int, g, k, 0);
    vstd::arithmetic::div_mod::lemma_fundamental_div_mod_converse(b as int, g, l, 0);
    assert(k >= 0 && l > 0) by (nonlinear_arith)
        requires
            k * g == a,
            l * g == b,
            a >= 0,
            b > 0,
            g > 0,
    ;
    assert((xy.0 * k + xy.1 * l) * g == g) by (nonlinear_arith)
        requires
            xy.0 * a + xy.1 * b == g,
            a == k * g,
            b == l * g,
    ;
    assert(xy.0 * k + xy.1 * l == 1) by (nonlinear_arith)
        requires
            (xy.0 * k + xy.1 * l) * g == g,
            g > 0,
    ;
    lemma_coprime(k as nat, l as nat, xy.0, xy.1);
}

/// A number has only one canonical form.
pub proof fn law_canonical_unique(a: Ratio, b: Ratio)
    requires
        canonical(a),
        canonical(b),
        same_ratio(a, b),
    ensures
        a == b,
{
    lemma_denominator_divides(a, b);
    lemma_denominator_divides(b, a);
    nt::divides_le(a.den, b.den);
    nt::divides_le(b.den, a.den);
    assert(a.num == b.num) by (nonlinear_arith)
        requires
            a.num * b.den == b.num * a.den,
            a.den == b.den,
            a.den >= 1,
    ;
}

/// In lowest terms the denominator divides every other denominator of the same number.
proof fn lemma_denominator_divides(a: Ratio, b: Ratio)
    requires
        canonical(a),
        b.den >= 1,
        same_ratio(a, b),
    ensures
        nt::divides(a.den, b.den),
{
    let n: int = nt::abs(a.num);
    let xy: (int, int) = nt::bezout(n as nat, a.den as nat);
    let x: int = if a.num < 0 {
        -xy.0
    } else {
        xy.0
    };
    assert(x * a.num == xy.0 * n) by (nonlinear_arith)
        requires
            (x == xy.0 && n == a.num) || (x == -xy.0 && n == -a.num),
    ;
    // b.den == (x * a.num + y * a.den) * b.den == (x * b.num + y * b.den) * a.den
    let k: int = x * b.num + xy.1 * b.den;
    assert(k * a.den == b.den) by (nonlinear_arith)
        requires
            k == x * b.num + xy.1 * b.den,
            x * a.num + xy.1 * a.den == 1,
            a.num * b.den == b.num * a.den,
    ;
    nt::divides_from_quotient(a.den, b.den, k);
}

impl WitRat {
    /// The canonical form of `num / den`.
    pub fn new(num: WitInt, den: WitInt) -> (r: WitRat)
        requires
            den@ != 0,
        ensures
            canonical(r@),
            same_ratio(r@, (Ratio { num: num@, den: den@ })),
    {
        let ghost n0: int = num@;
        let ghost d0: int = den@;
        let mut n: WitInt = num;
        let mut d: WitInt = den;
        if d.is_negative() {
            n = n.negate();
            d = d.negate();
        }
        let g: WitInt = n.gcd(&d);
        let ghost a: nat = nt::abs(n@) as nat;
        let ghost b: nat = d@ as nat;
        proof {
            lemma_lowest_terms(a, b);
        }
        let ghost n1: int = n@;
        let ghost d1: int = d@;
        if !g.is_one() {
            n = n.quotient(&g);
            d = d.quotient(&g);
        }
        proof {
            let q: int = g@;
            assert(a / 1 == a && b / 1 == b);
            assert(nt::abs(n@) == (a / q as nat) as int);
            assert(d@ == (b / q as nat) as int);
            assert(n@ * q == n1) by (nonlinear_arith)
                requires
                    (n1 >= 0 && n@ * q == n1) || (n1 < 0 && (-n@) * q == -n1),
            ;
            assert(n@ * d0 == n0 * d@) by (nonlinear_arith)
                requires
                    n@ * q == n1,
                    d@ * q == d1,
                    q > 0,
                    (n1 == n0 && d1 == d0) || (n1 == -n0 && d1 == -d0),
            ;
        }
        WitRat(n, d)
    }

    /// The canonical form of `num / den`.
    pub fn from_i64(num: i64, den: i64) -> (r: WitRat)
        requires
            den != 0,
        ensures
            canonical(r@),
            same_ratio(r@, (Ratio { num: num as int, den: den as int })),
    {
        Self::new(WitInt::from_i64(num), WitInt::from_i64(den))
    }

    /// The numerator.
    pub fn num(&self) -> (r: &WitInt)
        ensures
            *r == self.0,
    {
        &self.0
    }

    /// The denominator.
    pub fn den(&self) -> (r: &WitInt)
        ensures
            *r == self.1,
    {
        &self.1
    }

    /// Whether the rational is in canonical form.
    pub fn is_canonical(&self) -> (r: bool)
        ensures
            r == canonical(self@),
    {
        if self.1.is_negative() || self.1.is_zero() {
            return false;
        }
        self.0.gcd(&self.1).is_one()
    }

    /// The text of the rational: the numerator alone over the denominator one, else
    /// numerator, slash and denominator.
    pub fn text(&self) -> (r: String)
        ensures
            r@ == (if self@.den == 1 {
                text::decimal(self@.num)
            } else {
                text::decimal(self@.num) + seq!['/'] + text::decimal(self@.den)
            }),
    {
        let mut r: String = self.0.text();
        if !self.1.is_one() {
            push(&mut r, '/');
            let den: String = self.1.text();
            push_text(&mut r, den.as_str());
            assert(r@ =~= text::decimal(self@.num) + seq!['/'] + text::decimal(self@.den));
        }
        r
    }
}

} // verus!
