//! Cryptographically useful extensions to `BigUint`, as methods.

use vstd::prelude::*;
use num::bigint::BigUint;
use crate::bignum::value;
use crate::gcdext::{is_common_divisor, is_gcd, Signed};
use crate::modexp::modular_power;
use crate::primality::{verdict_explained, DEFAULT_ROUNDS};
use crate::primes;
use crate::search::no_odd_prime_between;

verus! {

/// Primality testing, prime search, modular exponentiation and the extended
/// Euclidean algorithm on arbitrary-precision natural numbers.
pub trait BigUintCrypto {
    /// The natural number that `self` holds.
    spec fn number(&self) -> nat;

    /// Finds the next probable prime above `self`, with [`DEFAULT_ROUNDS`]
    /// Miller-Rabin rounds for each candidate.
    ///
    /// The result is odd, above `self`, and was accepted by the primality
    /// test. No prime was passed over on the way, except that the even
    /// prime two is never a candidate: from zero or one the result is
    /// three.
    fn next_prime(&self) -> (p: BigUint)
        ensures
            value(p) > self.number(),
            value(p) % 2 == 1,
            value(p) >= 3,
            no_odd_prime_between(self.number(), value(p)),
            self.number() >= 2 ==> forall|q: nat|
                self.number() < q < value(p) ==> !primes::is_prime(q),
            self.number() < 2 ==> value(p) == 3,
            exists|draws: Seq<nat>| verdict_explained(value(p), DEFAULT_ROUNDS as nat, draws, true),
    ;

    /// Finds the greatest common divisor `g` of `self` and `other` and
    /// coefficients `x` and `y` with `g == self * x + other * y`. Returns
    /// `(g, x, y)`.
    fn gcdext(&self, other: &BigUint) -> (r: (BigUint, Signed, Signed))
        ensures
            is_gcd(value(r.0), self.number(), value(*other)),
            forall|c: nat| #[trigger]
                is_common_divisor(c, self.number(), value(*other)) ==> primes::divides(
                    c,
                    value(r.0),
                ),
            value(r.0) == self.number() * r.1@ + value(*other) * r.2@,
            r.1.well_formed(),
            r.2.well_formed(),
    ;

    /// Tells whether `n` is prime, with [`DEFAULT_ROUNDS`] Miller-Rabin
    /// rounds where the answer is not settled at sight.
    ///
    /// The answer `false` is always right. The answer `true` is right for
    /// every prime; a composite gets it only if it is odd, above three, and
    /// a strong probable prime to each of the witnesses drawn.
    fn is_prime(n: &BigUint) -> (verdict: bool)
        ensures
            exists|draws: Seq<nat>|
                verdict_explained(value(*n), DEFAULT_ROUNDS as nat, draws, verdict),
            primes::is_prime(value(*n)) ==> verdict,
            value(*n) < 2 ==> !verdict,
            value(*n) <= 3 || value(*n) % 2 == 0 ==> verdict == primes::is_prime(value(*n)),
    ;

    /// Computes `base^exponent mod modulus`. The modulus must be at least
    /// one.
    fn mod_exp(base: &BigUint, exponent: &BigUint, modulus: &BigUint) -> (r: BigUint)
        requires
            value(*modulus) >= 1,
        ensures
            value(r) == modular_power(value(*base), value(*exponent), value(*modulus)),
            value(r) < value(*modulus),
    ;
}

impl BigUintCrypto for BigUint {
    open spec fn number(&self) -> nat {
        value(*self)
    }

    fn next_prime(&self) -> (p: BigUint) {
        crate::search::next_prime_helper(self, DEFAULT_ROUNDS)
    }

    fn gcdext(&self, other: &BigUint) -> (r: (BigUint, Signed, Signed)) {
        crate::gcdext::gcdext(self, other)
    }

    fn is_prime(n: &BigUint) -> (verdict: bool) {
        crate::primality::is_prime_helper(n, DEFAULT_ROUNDS)
    }

    fn mod_exp(base: &BigUint, exponent: &BigUint, modulus: &BigUint) -> (r: BigUint) {
        crate::modexp::mod_exp(base, exponent, modulus)
    }
}

} // verus!
