//! The mathematics of one Miller-Rabin round: the decomposition of a
//! candidate, what it means for a witness to pass, and the theorem that a
//! prime passes with every witness.

use vstd::prelude::*;
use vstd::arithmetic::power::{pow, lemma_pow_multiplies, lemma_square_is_pow2};
use vstd::arithmetic::power2::{pow2, lemma2_to64, lemma_pow2_unfold};
use vstd::arithmetic::div_mod::{lemma_mul_mod_noop_general, lemma_small_mod};
use crate::fermat::lemma_fermat_little;
use crate::modexp::modular_power;
use crate::primes::{is_prime, lemma_square_roots_of_one};

verus! {

/// `(d, s)` is the decomposition of the candidate `n`: `n - 1 == d * 2^s`
/// with `d` odd.
pub open spec fn is_decomposition(n: nat, d: nat, s: nat) -> bool {
    &&& n >= 1
    &&& d % 2 == 1
    &&& d * pow2(s) == n - 1
}

/// The residue of `a^(d * 2^r)` modulo `n`: what `r` squarings make of
/// `a^d`.
pub open spec fn squared_residue(n: nat, d: nat, a: nat, r: nat) -> nat {
    modular_power(a, d * pow2(r), n)
}

/// The witness `a` passes a round for the candidate `n` with decomposition
/// `(d, s)`: either `a^d` is one modulo `n`, or one of `a^d`, `a^(2d)`, ...,
/// `a^(2^(s-1) d)` is minus one modulo `n`.
pub open spec fn round_passes(n: nat, d: nat, s: nat, a: nat) -> bool {
    ||| squared_residue(n, d, a, 0) == 1
    ||| exists|r: nat| r < s && #[trigger] squared_residue(n, d, a, r) == n - 1
}

/// `n` is a strong probable prime to the base `a`: the witness `a` passes a
/// round with the decomposition of `n`.
pub open spec fn strong_probable_prime(n: nat, a: nat) -> bool {
    exists|d: nat, s: nat| #[trigger] is_decomposition(n, d, s) && round_passes(n, d, s, a)
}

/// A number has at most one decomposition.
pub proof fn lemma_decomposition_is_unique(n: nat, d1: nat, s1: nat, d2: nat, s2: nat)
    requires
        is_decomposition(n, d1, s1),
        is_decomposition(n, d2, s2),
    ensures
        d1 == d2,
        s1 == s2,
    decreases s1,
{
    lemma2_to64();
    if s1 == 0 || s2 == 0 {
        if s1 > 0 {
            lemma_pow2_unfold(s1);
            assert(d1 * (2 * pow2((s1 - 1) as nat)) == 2 * (d1 * pow2((s1 - 1) as nat)))
                by (nonlinear_arith);
        }
        if s2 > 0 {
            lemma_pow2_unfold(s2);
            assert(d2 * (2 * pow2((s2 - 1) as nat)) == 2 * (d2 * pow2((s2 - 1) as nat)))
                by (nonlinear_arith);
        }
        assert(d1 * 1 == d1 && d2 * 1 == d2) by (nonlinear_arith);
    } else {
        let h1 = pow2((s1 - 1) as nat);
        let h2 = pow2((s2 - 1) as nat);
        lemma_pow2_unfold(s1);
        lemma_pow2_unfold(s2);
        assert(d1 * (2 * h1) == 2 * (d1 * h1)) by (nonlinear_arith);
        assert(d2 * (2 * h2) == 2 * (d2 * h2)) by (nonlinear_arith);
        lemma_decomposition_is_unique(d1 * h1 + 1, d1, (s1 - 1) as nat, d2, (s2 - 1) as nat);
    }
}

/// The decomposition exists: every number from two on has one.
pub proof fn lemma_decomposition_exists(n: nat) -> (r: (nat, nat))
    requires
        n >= 2,
    ensures
        is_decomposition(n, r.0, r.1),
    decreases n,
{
    lemma2_to64();
    let m = (n - 1) as nat;
    if m % 2 == 1 {
        (m, 0)
    } else {
        let half = m / 2;
        let (d, s) = lemma_decomposition_exists(half + 1);
        lemma_pow2_unfold(s + 1);
        assert(d * (2 * pow2(s)) == 2 * (d * pow2(s))) by (nonlinear_arith);
        (d, s + 1)
    }
}

/// With the decomposition at hand, being a strong probable prime means
/// passing the round with it.
pub proof fn lemma_strong_probable_prime(n: nat, d: nat, s: nat, a: nat)
    requires
        is_decomposition(n, d, s),
    ensures
        strong_probable_prime(n, a) == round_passes(n, d, s, a),
{
    if strong_probable_prime(n, a) {
        let (d2, s2) = choose|d2: nat, s2: nat| #[trigger]
            is_decomposition(n, d2, s2) && round_passes(n, d2, s2, a);
        lemma_decomposition_is_unique(n, d, s, d2, s2);
    }
}

/// The decomposition of an odd candidate above one has at least one factor
/// two.
pub proof fn lemma_decomposition_of_odd(n: nat, d: nat, s: nat)
    requires
        is_decomposition(n, d, s),
        n % 2 == 1,
    ensures
        s >= 1,
{
    if s == 0 {
        lemma2_to64();
    }
}

/// Before any squaring the residue is that of `a^d`.
pub proof fn lemma_squared_residue_start(n: nat, d: nat, a: nat)
    ensures
        squared_residue(n, d, a, 0) == modular_power(a, d, n),
{
    lemma2_to64();
}

/// One more squaring squares the residue.
pub proof fn lemma_squared_residue_step(n: nat, d: nat, a: nat, r: nat)
    requires
        n >= 1,
    ensures
        squared_residue(n, d, a, r + 1) == modular_power(squared_residue(n, d, a, r), 2, n),
        ({
            let x = squared_residue(n, d, a, r);
            squared_residue(n, d, a, r + 1) == (x * x) % n
        }),
{
    let e = d * pow2(r);
    let x = pow(a as int, e);
    let ni = n as int;
    lemma_pow2_unfold(r + 1);
    assert(d * (2 * pow2(r)) == e * 2) by (nonlinear_arith)
        requires
            e == d * pow2(r),
    ;
    lemma_pow_multiplies(a as int, e, 2);
    lemma_square_is_pow2(x);
    lemma_mul_mod_noop_general(x, x, ni);
    lemma_square_is_pow2((x % ni) as int);
}

/// A residue of one stays one under further squarings.
pub proof fn lemma_squared_residue_stays_one(n: nat, d: nat, a: nat, r: nat, t: nat)
    requires
        n >= 2,
        r <= t,
        squared_residue(n, d, a, r) == 1,
    ensures
        squared_residue(n, d, a, t) == 1,
    decreases t - r,
{
    if r < t {
        lemma_squared_residue_step(n, d, a, r);
        lemma_small_mod(1, n);
        lemma_squared_residue_stays_one(n, d, a, r + 1, t);
    }
}

/// Modulo a prime, a residue that is one after `r` squarings was one from
/// the start or minus one at some squaring before.
proof fn lemma_chain_reaching_one(n: nat, d: nat, s: nat, a: nat, r: nat)
    requires
        is_prime(n),
        r <= s,
        squared_residue(n, d, a, r) == 1,
    ensures
        round_passes(n, d, s, a),
    decreases r,
{
    if r > 0 {
        let before = (r - 1) as nat;
        let x = squared_residue(n, d, a, before);
        lemma_squared_residue_step(n, d, a, before);
        lemma_square_roots_of_one(n, x);
        if x == 1 {
            lemma_chain_reaching_one(n, d, s, a, before);
        }
    }
}

/// A prime passes every round: no witness that the prime does not divide
/// speaks against it.
pub proof fn lemma_prime_passes_round(n: nat, d: nat, s: nat, a: nat)
    requires
        is_prime(n),
        is_decomposition(n, d, s),
        a % n != 0,
    ensures
        round_passes(n, d, s, a),
{
    lemma_fermat_little(n, a);
    lemma_chain_reaching_one(n, d, s, a, s);
}

/// No false negatives: a prime is a strong probable prime to every base
/// from one to below itself.
pub proof fn lemma_prime_is_strong_probable_prime(n: nat, a: nat)
    requires
        is_prime(n),
        1 <= a < n,
    ensures
        strong_probable_prime(n, a),
{
    let (d, s) = lemma_decomposition_exists(n);
    lemma_small_mod(a, n);
    lemma_prime_passes_round(n, d, s, a);
}

} // verus!
