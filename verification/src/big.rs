//! The boundary to `num`'s arbitrary-precision integers and to `rand`'s
//! random sources.
//!
//! Nothing in this file is proved. Each function states what the outside
//! function it calls is documented to return, over the integer that a
//! `BigInt` holds; the rest of the crate is verified against these statements.

use crate::arith::{abs, is_gcd, is_lcm, trunc_div, trunc_rem};
use num::bigint::{BigInt, RandBigInt};
use num::integer::Integer;
use num::traits::ToPrimitive;
use rand::rngs::{OsRng, StdRng};
use rand::SeedableRng;
use vstd::arithmetic::power2::pow2;
use vstd::prelude::*;

verus! {

/// `num`'s signed integer of any size. What one holds is read through
/// [`val`].
#[verifier::external_type_specification]
#[verifier::external_body]
pub struct ExBigInt(BigInt);

/// `rand`'s handle on the operating system's random source.
#[verifier::external_type_specification]
#[verifier::external_body]
pub struct ExOsRng(OsRng);

/// `rand`'s standard generator.
#[verifier::external_type_specification]
#[verifier::external_body]
pub struct ExStdRng(StdRng);

/// The mathematical integer that a `BigInt` holds.
pub uninterp spec fn val(x: &BigInt) -> int;

/// `BigInt::from` on a `u64`: the integer of the same value.
#[verifier::external_body]
pub(crate) fn big_from_u64(x: u64) -> (r: BigInt)
    ensures
        val(&r) == x,
{
    BigInt::from(x)
}

/// `ToPrimitive::to_usize` on a `BigInt`: the same value as a `usize` where
/// it is in the range of one, and nothing where it is not.
#[verifier::external_body]
pub(crate) fn big_to_usize(a: &BigInt) -> (r: Option<usize>)
    ensures
        r.is_some() <==> 0 <= val(a) <= usize::MAX,
        r matches Some(x) ==> x == val(a),
{
    a.to_usize()
}

/// `Clone::clone` on a `BigInt`: an integer of the same value.
#[verifier::external_body]
pub(crate) fn big_clone(a: &BigInt) -> (r: BigInt)
    ensures
        val(&r) == val(a),
{
    a.clone()
}

/// `BigInt::bits`: the least number of bits that hold the magnitude, which
/// is zero for zero.
#[verifier::external_body]
pub(crate) fn big_bits(a: &BigInt) -> (r: u64)
    ensures
        abs(val(a)) < pow2(r as nat),
        r > 0 ==> pow2((r - 1) as nat) <= abs(val(a)),
{
    a.bits()
}

/// `==` on `BigInt`: whether the two hold the same integer.
#[verifier::external_body]
pub(crate) fn big_eq(a: &BigInt, b: &BigInt) -> (r: bool)
    ensures
        r == (val(a) == val(b)),
{
    a == b
}

/// `<` on `BigInt`: the order of the integers.
#[verifier::external_body]
pub(crate) fn big_lt(a: &BigInt, b: &BigInt) -> (r: bool)
    ensures
        r == (val(a) < val(b)),
{
    a < b
}

/// `+` on `BigInt`: the exact sum.
#[verifier::external_body]
pub(crate) fn big_add(a: &BigInt, b: &BigInt) -> (r: BigInt)
    ensures
        val(&r) == val(a) + val(b),
{
    a + b
}

/// `-` on `BigInt`: the exact difference.
#[verifier::external_body]
pub(crate) fn big_sub(a: &BigInt, b: &BigInt) -> (r: BigInt)
    ensures
        val(&r) == val(a) - val(b),
{
    a - b
}

/// `*` on `BigInt`: the exact product.
#[verifier::external_body]
pub(crate) fn big_mul(a: &BigInt, b: &BigInt) -> (r: BigInt)
    ensures
        val(&r) == val(a) * val(b),
{
    a * b
}

/// `/` on `BigInt`: the quotient rounded toward zero. The outside operator
/// panics on a zero divisor.
#[verifier::external_body]
pub(crate) fn big_div(a: &BigInt, b: &BigInt) -> (r: BigInt)
    requires
        val(b) != 0,
    ensures
        val(&r) == trunc_div(val(a), val(b)),
{
    a / b
}

/// `%` on `BigInt`: the remainder of the division that rounds toward zero,
/// which has the sign of the dividend. The outside operator panics on a zero
/// divisor.
#[verifier::external_body]
pub(crate) fn big_rem(a: &BigInt, b: &BigInt) -> (r: BigInt)
    requires
        val(b) != 0,
    ensures
        val(&r) == trunc_rem(val(a), val(b)),
{
    a % b
}

/// `Integer::gcd` on `BigInt`: the greatest common divisor, never negative,
/// and zero where both arguments are zero.
#[verifier::external_body]
pub(crate) fn big_gcd(a: &BigInt, b: &BigInt) -> (r: BigInt)
    ensures
        is_gcd(val(&r), val(a), val(b)),
{
    a.gcd(b)
}

/// `Integer::lcm` on `BigInt`: the least common multiple, never negative,
/// and zero where one argument is zero.
#[verifier::external_body]
pub(crate) fn big_lcm(a: &BigInt, b: &BigInt) -> (r: BigInt)
    ensures
        is_lcm(val(&r), val(a), val(b)),
{
    a.lcm(b)
}

/// `OsRng`: the operating system's random source.
#[verifier::external_body]
pub(crate) fn os_rng() -> OsRng {
    OsRng
}

/// `SeedableRng::from_entropy` for `StdRng`: a generator seeded by the
/// operating system. The outside function panics where the system has no
/// entropy to give.
#[verifier::external_body]
pub(crate) fn std_rng() -> StdRng {
    StdRng::from_entropy()
}

/// `RandBigInt::gen_biguint` on `OsRng`: a random integer of at most `bits`
/// bits, so one of `0 .. 2^bits`. Which one is not stated.
#[verifier::external_body]
pub(crate) fn random_bits(rng: &mut OsRng, bits: usize) -> (r: BigInt)
    ensures
        0 <= val(&r) < pow2(bits as nat),
{
    BigInt::from(rng.gen_biguint(bits as u64))
}

/// `RandBigInt::gen_bigint_range` on `OsRng`: a random integer of `lo .. hi`
/// from the operating system's source. Which one is not stated. The outside
/// function panics on an empty range.
#[verifier::external_body]
pub(crate) fn secure_random_below(rng: &mut OsRng, lo: &BigInt, hi: &BigInt) -> (r: BigInt)
    requires
        val(lo) < val(hi),
    ensures
        val(lo) <= val(&r) < val(hi),
{
    rng.gen_bigint_range(lo, hi)
}

/// `RandBigInt::gen_bigint_range` on `StdRng`: a random integer of
/// `lo .. hi`. Which one is not stated. The outside function panics on an
/// empty range.
#[verifier::external_body]
pub(crate) fn random_below(rng: &mut StdRng, lo: &BigInt, hi: &BigInt) -> (r: BigInt)
    requires
        val(lo) < val(hi),
    ensures
        val(lo) <= val(&r) < val(hi),
{
    rng.gen_bigint_range(lo, hi)
}

} // verus!
