//! The arbitrary-precision integers of `num`, as verified code sees them.
//!
//! A `BigUint` is opaque to the verifier. The number that it holds is named
//! by [`value`], and every operation that the library performs on one is
//! declared in this module with a contract over that number. None of these
//! contracts is proved: each restates what `num` documents of the operation
//! that it stands for. The same goes for the random draws, of which only the
//! range is stated.

use vstd::prelude::*;
use vstd::arithmetic::power2::pow2;
use num::bigint::BigUint;
use num::bigint::RandBigInt;
use num::Integer;
use rand::rngs::ThreadRng;

verus! {

/// `num::bigint::BigUint`, an unsigned integer of arbitrary precision.
#[verifier::external_type_specification]
#[verifier::external_body]
pub struct ExBigUint(BigUint);

/// `rand::rngs::ThreadRng`, the handle to a thread's random number
/// generator.
#[verifier::external_type_specification]
#[verifier::external_body]
pub struct ExThreadRng(ThreadRng);

/// The natural number that a `BigUint` holds: what its digits stand for.
pub uninterp spec fn value(n: BigUint) -> nat;

/// `BigUint::from` on a `u64`: the result holds the same number.
#[verifier::external_body]
pub(crate) fn from_u64(v: u64) -> (r: BigUint)
    ensures
        value(r) == v,
{
    BigUint::from(v)
}

/// `BigUint::clone`: the copy holds the same number.
pub assume_specification[ <BigUint as Clone>::clone ](a: &BigUint) -> (r: BigUint)
    ensures
        value(r) == value(*a),
;

/// `+` on two `BigUint`s: the exact sum.
#[verifier::external_body]
pub(crate) fn sum(a: &BigUint, b: &BigUint) -> (r: BigUint)
    ensures
        value(r) == value(*a) + value(*b),
{
    a + b
}

/// `-` on two `BigUint`s: the exact difference. `num` panics when the
/// subtrahend is the larger, so that case is excluded.
#[verifier::external_body]
pub(crate) fn difference(a: &BigUint, b: &BigUint) -> (r: BigUint)
    requires
        value(*b) <= value(*a),
    ensures
        value(r) == value(*a) - value(*b),
{
    a - b
}

/// `*` on two `BigUint`s: the exact product.
#[verifier::external_body]
pub(crate) fn product(a: &BigUint, b: &BigUint) -> (r: BigUint)
    ensures
        value(r) == value(*a) * value(*b),
{
    a * b
}

/// `%` on two `BigUint`s: the remainder of the division. `num` panics on a
/// zero divisor, so that case is excluded.
#[verifier::external_body]
pub(crate) fn remainder(a: &BigUint, m: &BigUint) -> (r: BigUint)
    requires
        value(*m) > 0,
    ensures
        value(r) == value(*a) % value(*m),
{
    a % m
}

/// `Integer::div_rem` on two `BigUint`s: quotient and remainder of the
/// division. `num` panics on a zero divisor, so that case is excluded.
#[verifier::external_body]
pub(crate) fn quotient_remainder(a: &BigUint, b: &BigUint) -> (r: (BigUint, BigUint))
    requires
        value(*b) > 0,
    ensures
        value(r.0) == value(*a) / value(*b),
        value(r.1) == value(*a) % value(*b),
{
    a.div_rem(b)
}

/// `>>` on a `BigUint`: the number divided by two to the power `bits`,
/// rounded down.
#[verifier::external_body]
pub(crate) fn shift_right(a: &BigUint, bits: u32) -> (r: BigUint)
    ensures
        value(r) == value(*a) / pow2(bits as nat),
{
    a >> bits
}

/// `Integer::is_even` on a `BigUint`: whether two divides the number.
#[verifier::external_body]
pub(crate) fn is_even(a: &BigUint) -> (r: bool)
    ensures
        r == (value(*a) % 2 == 0),
{
    a.is_even()
}

/// `==` on two `BigUint`s: whether they hold the same number.
#[verifier::external_body]
pub(crate) fn same(a: &BigUint, b: &BigUint) -> (r: bool)
    ensures
        r == (value(*a) == value(*b)),
{
    a == b
}

/// `<` on two `BigUint`s: whether the first holds the smaller number.
#[verifier::external_body]
pub(crate) fn less(a: &BigUint, b: &BigUint) -> (r: bool)
    ensures
        r == (value(*a) < value(*b)),
{
    a < b
}

/// `rand::thread_rng`: a handle to the calling thread's generator, which is
/// seeded by the operating system and meant for cryptographic use. Nothing
/// is claimed of it. Where the operating system cannot seed the generator
/// `rand` panics, which no argument can rule out.
#[verifier::external_body]
pub(crate) fn thread_generator() -> ThreadRng {
    rand::thread_rng()
}

/// `RandBigInt::gen_biguint_range`: a number drawn from the half-open range
/// from `low` up to but excluding `high`. Which one is left open. `num`
/// panics on an empty range, so that case is excluded.
#[verifier::external_body]
pub(crate) fn draw_in_range(rng: &mut ThreadRng, low: &BigUint, high: &BigUint) -> (r: BigUint)
    requires
        value(*low) < value(*high),
    ensures
        value(*low) <= value(r) < value(*high),
{
    rng.gen_biguint_range(low, high)
}

} // verus!
