//! Arbitrary-precision operations, from two's complement bytes to two's complement bytes.

use super::int_bytes;
use crate::nt;
use crate::text;
use num_bigint::BigInt;
use num_integer::Integer;
use vstd::prelude::*;

verus! {

/// The quotient of a division that rounds toward zero.
pub open spec fn quotient(a: int, b: int) -> int {
    let q = nt::abs(a) / nt::abs(b);
    if (a < 0) == (b < 0) {
        q
    } else {
        -q
    }
}

/// The greatest common divisor of two integers. This calls `num_integer::Integer::gcd` on
/// `num_bigint::BigInt`, of which it is claimed that it is the greatest common divisor of
/// the absolute values, zero where both are zero. The arguments and the result pass through
/// `BigInt::from_signed_bytes_le` and `BigInt::to_signed_bytes_le`, of which it is claimed
/// that they read and write two's complement, least significant byte first.
#[verifier::external_body]
pub(crate) fn gcd_bytes(a: &[u8], b: &[u8]) -> (r: Vec<u8>)
    ensures
        int_bytes::twos(r@) == nt::gcd(
            nt::abs(int_bytes::twos(a@)) as nat,
            nt::abs(int_bytes::twos(b@)) as nat,
        ),
{
    BigInt::from_signed_bytes_le(a).gcd(&BigInt::from_signed_bytes_le(b)).to_signed_bytes_le()
}

/// The quotient of two integers, rounded toward zero. This calls the division of
/// `num_bigint::BigInt` by reference, which panics on a zero divisor; of it that is
/// claimed. The bytes are read and written as in [`gcd_bytes`].
#[verifier::external_body]
pub(crate) fn div_bytes(a: &[u8], b: &[u8]) -> (r: Vec<u8>)
    requires
        int_bytes::twos(b@) != 0,
    ensures
        int_bytes::twos(r@) == quotient(int_bytes::twos(a@), int_bytes::twos(b@)),
{
    (&BigInt::from_signed_bytes_le(a) / &BigInt::from_signed_bytes_le(b)).to_signed_bytes_le()
}

/// The negation of an integer. This calls the negation of `num_bigint::BigInt`, of which
/// that is claimed. The bytes are read and written as in [`gcd_bytes`].
#[verifier::external_body]
pub(crate) fn neg_bytes(a: &[u8]) -> (r: Vec<u8>)
    ensures
        int_bytes::twos(r@) == -int_bytes::twos(a@),
{
    (-BigInt::from_signed_bytes_le(a)).to_signed_bytes_le()
}

/// Whether an integer is less than another. This calls the comparison of
/// `num_bigint::BigInt`, of which it is claimed that it compares the values. The bytes are
/// read as in [`gcd_bytes`].
#[verifier::external_body]
pub(crate) fn less_bytes(a: &[u8], b: &[u8]) -> (r: bool)
    ensures
        r == (int_bytes::twos(a@) < int_bytes::twos(b@)),
{
    BigInt::from_signed_bytes_le(a) < BigInt::from_signed_bytes_le(b)
}

/// The decimal text of an integer. This calls `to_string` on `num_bigint::BigInt`, of which
/// it is claimed that it is the decimal digits without leading zeros, behind a minus sign
/// for a negative number. The bytes are read as in [`gcd_bytes`].
#[verifier::external_body]
pub(crate) fn text_of_bytes(a: &[u8]) -> (r: String)
    ensures
        r@ == text::decimal(int_bytes::twos(a@)),
{
    BigInt::from_signed_bytes_le(a).to_string()
}

} // verus!
