//! Arbitrary-precision integers of `num_bigint`, seen by the verifier as
//! the digits that they hold, and so as numbers.
use crate::text::decimal_digits;
use num_bigint::{BigInt, BigUint, RandBigInt, ToBigInt};
use num_integer::Integer;
use num_traits::{One, Zero};
use rand::rngs::OsRng;
use vstd::arithmetic::power2::pow2;
use vstd::arithmetic::power::pow;
use vstd::prelude::*;

verus! {

/// `num_bigint::BigUint`, an unsigned big integer: a vector of digits that
/// the verifier does not look into. What it holds is `big_digits`.
#[verifier::external_type_specification]
#[verifier::external_body]
pub struct ExBigUint(BigUint);

/// `num_bigint::BigInt`, a signed big integer: a sign and a vector of
/// digits that the verifier does not look into. What it holds is
/// `bigint_digits` and `bigint_negative`.
#[verifier::external_type_specification]
#[verifier::external_body]
pub struct ExBigInt(BigInt);

/// The digits that an unsigned big integer holds, in base 256, the most
/// significant first and without a leading zero; the number 0 holds the
/// one digit 0.
pub uninterp spec fn big_digits(n: BigUint) -> Seq<u8>;

/// The digits of the magnitude that a signed big integer holds, as for an
/// unsigned one.
pub uninterp spec fn bigint_digits(n: BigInt) -> Seq<u8>;

/// Whether a signed big integer holds the sign of a negative number.
pub uninterp spec fn bigint_negative(n: BigInt) -> bool;

/// The number that bytes stand for in base 256, the most significant byte
/// first.
pub open spec fn be_value(bytes: Seq<u8>) -> nat
    decreases bytes.len(),
{
    if bytes.len() == 0 {
        0
    } else {
        be_value(bytes.drop_last()) * 256 + bytes.last() as nat
    }
}

/// The number that an unsigned big integer holds.
pub open spec fn nat_of(n: BigUint) -> nat {
    be_value(big_digits(n))
}

/// The numbers that unsigned big integers hold, one by one.
pub open spec fn nats_of(s: Seq<BigUint>) -> Seq<nat> {
    Seq::new(s.len(), |i: int| nat_of(s[i]))
}

/// The number that a signed big integer holds.
pub open spec fn int_of(n: BigInt) -> int {
    if bigint_negative(n) {
        -(be_value(bigint_digits(n)) as int)
    } else {
        be_value(bigint_digits(n)) as int
    }
}

/// `BigUint::from(u32)`: the big integer holds the number given.
#[verifier::external_body]
pub(crate) fn big_from_u32(x: u32) -> (r: BigUint)
    ensures
        nat_of(r) == x,
{
    BigUint::from(x)
}

/// `Zero::zero` of `BigUint`: the big integer 0.
#[verifier::external_body]
pub(crate) fn big_zero() -> (r: BigUint)
    ensures
        nat_of(r) == 0,
{
    BigUint::zero()
}

/// `One::one` of `BigUint`: the big integer 1.
#[verifier::external_body]
pub(crate) fn big_one() -> (r: BigUint)
    ensures
        nat_of(r) == 1,
{
    BigUint::one()
}

/// `Zero::is_zero` of `BigUint`: whether the number held is 0.
#[verifier::external_body]
pub(crate) fn big_is_zero(a: &BigUint) -> (r: bool)
    ensures
        r == (nat_of(*a) == 0),
{
    a.is_zero()
}

/// `Clone::clone` of `BigUint`: the copy holds the same number.
#[verifier::external_body]
pub(crate) fn big_clone(a: &BigUint) -> (r: BigUint)
    ensures
        nat_of(r) == nat_of(*a),
{
    a.clone()
}

/// `==` on `BigUint`: whether the two hold the same number.
#[verifier::external_body]
pub(crate) fn big_eq(a: &BigUint, b: &BigUint) -> (r: bool)
    ensures
        r == (nat_of(*a) == nat_of(*b)),
{
    a == b
}

/// `<` on `BigUint`: whether the first number is the smaller one.
#[verifier::external_body]
pub(crate) fn big_lt(a: &BigUint, b: &BigUint) -> (r: bool)
    ensures
        r == (nat_of(*a) < nat_of(*b)),
{
    a < b
}

/// `+` on `BigUint`: the sum.
#[verifier::external_body]
pub(crate) fn big_add(a: &BigUint, b: &BigUint) -> (r: BigUint)
    ensures
        nat_of(r) == nat_of(*a) + nat_of(*b),
{
    a + b
}

/// `-` on `BigUint`: the difference; the call panics where it would be
/// negative.
#[verifier::external_body]
pub(crate) fn big_sub(a: &BigUint, b: &BigUint) -> (r: BigUint)
    requires
        nat_of(*a) >= nat_of(*b),
    ensures
        nat_of(r) == nat_of(*a) - nat_of(*b),
{
    a - b
}

/// `*` on `BigUint`: the product.
#[verifier::external_body]
pub(crate) fn big_mul(a: &BigUint, b: &BigUint) -> (r: BigUint)
    ensures
        nat_of(r) == nat_of(*a) * nat_of(*b),
{
    a * b
}

/// `/` on `BigUint`: the quotient, rounded down; the call panics for the
/// divisor 0.
#[verifier::external_body]
pub(crate) fn big_div(a: &BigUint, b: &BigUint) -> (r: BigUint)
    requires
        nat_of(*b) != 0,
    ensures
        nat_of(r) == nat_of(*a) / nat_of(*b),
{
    a / b
}

/// `%` on `BigUint`: the remainder; the call panics for the divisor 0.
#[verifier::external_body]
pub(crate) fn big_rem(a: &BigUint, b: &BigUint) -> (r: BigUint)
    requires
        nat_of(*b) != 0,
    ensures
        nat_of(r) == nat_of(*a) % nat_of(*b),
{
    a % b
}

/// `BigUint::modpow`: the power, reduced by the modulus; the call panics
/// for the modulus 0.
#[verifier::external_body]
pub(crate) fn big_modpow(base: &BigUint, exponent: &BigUint, modulus: &BigUint) -> (r: BigUint)
    requires
        nat_of(*modulus) != 0,
    ensures
        nat_of(r) == pow(nat_of(*base) as int, nat_of(*exponent)) % (nat_of(*modulus) as int),
{
    base.modpow(exponent, modulus)
}

/// `BigUint::to_bytes_be`: the digits of the number in base 256, the most
/// significant first, at least one.
#[verifier::external_body]
pub(crate) fn big_to_bytes_be(a: &BigUint) -> (bytes: Vec<u8>)
    ensures
        bytes@ == big_digits(*a),
        bytes@.len() >= 1,
{
    a.to_bytes_be()
}

/// `BigUint::from_bytes_be`: the number that the bytes stand for in base
/// 256, the most significant first.
#[verifier::external_body]
pub(crate) fn big_from_bytes_be(bytes: &[u8]) -> (r: BigUint)
    ensures
        nat_of(r) == be_value(bytes@),
{
    BigUint::from_bytes_be(bytes)
}

/// `RandBigInt::gen_biguint_range` on `OsRng`: a number drawn at random,
/// not below the lower bound and below the upper one; the call panics
/// where the bounds leave no number.
#[verifier::external_body]
pub(crate) fn big_random_range(low: &BigUint, high: &BigUint) -> (r: BigUint)
    requires
        nat_of(*low) < nat_of(*high),
    ensures
        nat_of(*low) <= nat_of(r) < nat_of(*high),
{
    OsRng.gen_biguint_range(low, high)
}

/// `Display` of `BigUint`, through `to_string`: the number in decimal
/// digits, without leading zeros.
#[verifier::external_body]
pub(crate) fn big_to_decimal(a: &BigUint) -> (s: String)
    ensures
        s@ == decimal_digits(nat_of(*a)),
{
    a.to_string()
}

/// `BigUint::bits`: the fewest bits that express the number, 0 for 0.
#[verifier::external_body]
pub(crate) fn big_bits(a: &BigUint) -> (bits: u64)
    ensures
        nat_of(*a) < pow2(bits as nat),
        bits > 0 ==> nat_of(*a) >= pow2((bits - 1) as nat),
{
    a.bits()
}

/// `ToBigInt::to_bigint` of `BigUint`: the same number, signed: the same
/// digits, and not the sign of a negative number.
#[verifier::external_body]
pub(crate) fn bigint_from_big(a: &BigUint) -> (r: BigInt)
    ensures
        bigint_digits(r) == big_digits(*a),
        !bigint_negative(r),
{
    a.to_bigint().unwrap()
}

/// `BigInt::to_biguint`: the same number, unsigned, and nothing for a
/// negative one.
#[verifier::external_body]
pub(crate) fn bigint_to_big(a: &BigInt) -> (r: Option<BigUint>)
    ensures
        r is Some <==> int_of(*a) >= 0,
        r matches Some(v) ==> nat_of(v) == int_of(*a),
{
    a.to_biguint()
}

/// `Zero::zero` of `BigInt`: the big integer 0.
#[verifier::external_body]
pub(crate) fn bigint_zero() -> (r: BigInt)
    ensures
        int_of(r) == 0,
{
    BigInt::zero()
}

/// `One::one` of `BigInt`: the big integer 1.
#[verifier::external_body]
pub(crate) fn bigint_one() -> (r: BigInt)
    ensures
        int_of(r) == 1,
{
    BigInt::one()
}

/// `Zero::is_zero` of `BigInt`: whether the number held is 0.
#[verifier::external_body]
pub(crate) fn bigint_is_zero(a: &BigInt) -> (r: bool)
    ensures
        r == (int_of(*a) == 0),
{
    a.is_zero()
}

/// `Clone::clone` of `BigInt`: the copy holds the same number.
#[verifier::external_body]
pub(crate) fn bigint_clone(a: &BigInt) -> (r: BigInt)
    ensures
        int_of(r) == int_of(*a),
{
    a.clone()
}

/// `/` on `BigInt`, for a dividend that is not negative and a positive
/// divisor: the quotient, rounded down.
#[verifier::external_body]
pub(crate) fn bigint_div(a: &BigInt, b: &BigInt) -> (r: BigInt)
    requires
        int_of(*a) >= 0,
        int_of(*b) > 0,
    ensures
        int_of(r) == int_of(*a) / int_of(*b),
{
    a / b
}

/// `*` on `BigInt`: the product.
#[verifier::external_body]
pub(crate) fn bigint_mul(a: &BigInt, b: &BigInt) -> (r: BigInt)
    ensures
        int_of(r) == int_of(*a) * int_of(*b),
{
    a * b
}

/// `-` on `BigInt`: the difference.
#[verifier::external_body]
pub(crate) fn bigint_sub(a: &BigInt, b: &BigInt) -> (r: BigInt)
    ensures
        int_of(r) == int_of(*a) - int_of(*b),
{
    a - b
}

/// `Integer::mod_floor` of `BigInt`, for a positive modulus: the remainder
/// that is not negative and below the modulus.
#[verifier::external_body]
pub(crate) fn bigint_mod_floor(a: &BigInt, m: &BigInt) -> (r: BigInt)
    requires
        int_of(*m) > 0,
    ensures
        int_of(r) == int_of(*a) % int_of(*m),
{
    a.mod_floor(m)
}

} // verus!
