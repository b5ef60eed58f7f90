//! Modular exponentiation by repeated squaring.

use vstd::prelude::*;
use vstd::arithmetic::power::{pow, lemma_pow0, lemma_pow_adds, lemma_pow_mod_noop, lemma_pow_multiplies, lemma_square_is_pow2, lemma_pow1};
use vstd::arithmetic::power2::lemma2_to64;
use vstd::arithmetic::div_mod::{lemma_mul_mod_noop_general, lemma_small_mod};
use vstd::arithmetic::mul::lemma_mul_is_associative;
use num::bigint::BigUint;
use crate::bignum::{from_u64, is_even, less, product, remainder, same, shift_right, value};

verus! {

/// `base` raised to `exponent`, reduced modulo `modulus`.
pub open spec fn modular_power(base: nat, exponent: nat, modulus: nat) -> nat {
    (pow(base as int, exponent) % (modulus as int)) as nat
}

/// A power with exponent zero is one, so its residue is that of one: zero
/// when the modulus is one, and one otherwise.
pub proof fn lemma_modular_power_zero_exponent(base: nat, modulus: nat)
    requires
        modulus >= 1,
    ensures
        modular_power(base, 0, modulus) == 1nat % modulus,
        modulus > 1 ==> modular_power(base, 0, modulus) == 1,
{
    lemma_pow0(base as int);
    if modulus > 1 {
        lemma_small_mod(1, modulus);
    }
}

/// A modular power is a residue: it lies below the modulus.
pub proof fn lemma_modular_power_bound(base: nat, exponent: nat, modulus: nat)
    requires
        modulus >= 1,
    ensures
        modular_power(base, exponent, modulus) < modulus,
{
}

/// One step of square-and-multiply keeps the residue of
/// `acc * base^exponent`: the exponent is halved, the base squared, and the
/// accumulator takes up the base when the exponent was odd.
proof fn lemma_square_and_multiply_step(acc: int, base: int, exponent: nat, modulus: int)
    requires
        modulus > 0,
        exponent > 0,
    ensures
        exponent % 2 == 0 ==> (acc * pow((base * base) % modulus, exponent / 2)) % modulus == (acc
            * pow(base, exponent)) % modulus,
        exponent % 2 == 1 ==> (((acc * base) % modulus) * pow(
            (base * base) % modulus,
            exponent / 2,
        )) % modulus == (acc * pow(base, exponent)) % modulus,
{
    let half = exponent / 2;
    let squared = pow(base * base, half);
    let reduced = pow((base * base) % modulus, half);
    lemma_pow_mod_noop(base * base, half, modulus);
    lemma_square_is_pow2(base);
    lemma_pow_multiplies(base, 2, half);
    assert(squared == pow(base, 2 * half));
    if exponent % 2 == 0 {
        lemma_mul_mod_noop_general(acc, reduced, modulus);
        lemma_mul_mod_noop_general(acc, squared, modulus);
    } else {
        lemma_pow_adds(base, 1, 2 * half);
        lemma_pow1(base);
        assert(pow(base, exponent) == base * squared);
        lemma_mul_mod_noop_general(acc * base, reduced, modulus);
        lemma_mul_mod_noop_general(acc * base, squared, modulus);
        lemma_mul_is_associative(acc, base, squared);
    }
}

/// Computes `base^exponent mod modulus` by right-to-left square-and-multiply.
///
/// The modulus must be at least one: a residue modulo zero does not exist.
/// The result is the residue in `[0, modulus)`; in particular an exponent of
/// zero gives `1 mod modulus`, which is zero for the modulus one.
pub fn mod_exp(base: &BigUint, exponent: &BigUint, modulus: &BigUint) -> (r: BigUint)
    requires
        value(*modulus) >= 1,
    ensures
        value(r) == modular_power(value(*base), value(*exponent), value(*modulus)),
        value(r) < value(*modulus),
        value(*exponent) == 0 ==> value(r) == 1nat % value(*modulus),
{
    let zero = from_u64(0);
    let one = from_u64(1);
    let mut result = remainder(&one, modulus);
    let mut base_acc = base.clone();
    let mut exp_acc = exponent.clone();
    proof {
        lemma_mul_mod_noop_general(1, pow(value(*base) as int, value(*exponent)), value(*modulus) as int);
        lemma_pow0(value(*base) as int);
    }
    while less(&zero, &exp_acc)
        invariant
            value(zero) == 0,
            value(*modulus) >= 1,
            value(result) < value(*modulus),
            (value(result) * pow(value(base_acc) as int, value(exp_acc))) % (value(*modulus) as int)
                == pow(value(*base) as int, value(*exponent)) % (value(*modulus) as int),
        decreases value(exp_acc),
    {
        proof {
            lemma_square_and_multiply_step(
                value(result) as int,
                value(base_acc) as int,
                value(exp_acc),
                value(*modulus) as int,
            );
            lemma2_to64();
        }
        if !is_even(&exp_acc) {
            result = remainder(&product(&result, &base_acc), modulus);
        }
        exp_acc = shift_right(&exp_acc, 1);
        base_acc = remainder(&product(&base_acc, &base_acc), modulus);
    }
    proof {
        lemma_pow0(value(base_acc) as int);
        lemma_small_mod(value(result), value(*modulus));
    }
    result
}

/// Computes `base^exponent mod modulus` like [`mod_exp`], for any modulus:
/// a modulus of zero, modulo which no residue exists, is refused with
/// `None`.
pub fn checked_mod_exp(base: &BigUint, exponent: &BigUint, modulus: &BigUint) -> (r: Option<
    BigUint,
>)
    ensures
        value(*modulus) == 0 <==> r is None,
        r matches Some(p) ==> value(p) == modular_power(
            value(*base),
            value(*exponent),
            value(*modulus),
        ) && value(p) < value(*modulus),
{
    let zero = from_u64(0);
    if same(modulus, &zero) {
        None
    } else {
        Some(mod_exp(base, exponent, modulus))
    }
}

} // verus!
