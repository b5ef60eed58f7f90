//! Divisibility and prime numbers: the definitions that the contracts of the
//! library are stated over, and the classical facts that its proofs rest on.

use vstd::prelude::*;
use vstd::arithmetic::div_mod::{
    lemma_fundamental_div_mod, lemma_mod_equivalence, lemma_mod_multiples_basic, lemma_mod_twice,
    lemma_mul_mod_noop_general, lemma_small_mod, lemma_sub_mod_noop,
};
use vstd::arithmetic::mul::lemma_mul_is_distributive_sub;

verus! {

/// `d` is a positive divisor of `n`.
pub open spec fn divides(d: nat, n: nat) -> bool {
    d > 0 && n % d == 0
}

/// `n` is a prime number: at least two, with no divisor strictly between one
/// and itself.
pub open spec fn is_prime(n: nat) -> bool {
    n >= 2 && forall|d: nat| 2 <= d < n ==> !#[trigger] divides(d, n)
}

/// The product of the numbers from one to `n`.
pub open spec fn factorial(n: nat) -> nat
    decreases n,
{
    if n == 0 {
        1
    } else {
        n * factorial((n - 1) as nat)
    }
}

/// An even number other than two is not prime, nor is any number below two.
pub proof fn lemma_even_or_small_is_not_prime(n: nat)
    requires
        n < 2 || (n % 2 == 0 && n != 2),
    ensures
        !is_prime(n),
{
    if n >= 2 {
        assert(divides(2, n));
    }
}

/// Euclid's lemma: a prime that divides a product divides one of the factors.
pub proof fn lemma_prime_divides_factor(p: nat, a: nat, b: nat)
    requires
        is_prime(p),
        divides(p, a * b),
    ensures
        divides(p, a) || divides(p, b),
    decreases a,
{
    let pi = p as int;
    if a == 0 {
        assert(0nat % p == 0);
    } else if a >= p {
        let r = a % p;
        lemma_mul_mod_noop_general(a as int, b as int, pi);
        assert((r * b) % p == 0);
        lemma_prime_divides_factor(p, r, b);
        lemma_mod_twice(a as int, pi);
    } else if a == 1 {
        assert(a * b == b) by (nonlinear_arith)
            requires
                a == 1,
        ;
    } else {
        let q = p / a;
        let r = p % a;
        lemma_fundamental_div_mod(pi, a as int);
        assert(!divides(a, p));
        assert(r * b == p * b - q * (a * b)) by (nonlinear_arith)
            requires
                p == a * q + r,
        ;
        lemma_mod_multiples_basic(b as int, pi);
        lemma_mul_mod_noop_general(q as int, (a * b) as int, pi);
        lemma_sub_mod_noop((p * b) as int, (q * (a * b)) as int, pi);
        assert((r * b) % p == 0);
        lemma_prime_divides_factor(p, r, b);
        lemma_small_mod(r, p);
    }
}

/// Modulo a prime, the product of two numbers that are not multiples of the
/// prime is not a multiple of it either.
pub proof fn lemma_residue_product_is_not_zero(p: nat, a: nat, b: nat)
    requires
        is_prime(p),
        a % p != 0,
        b % p != 0,
    ensures
        (a * b) % p != 0,
{
    if (a * b) % p == 0 {
        lemma_prime_divides_factor(p, a, b);
    }
}

/// Modulo a prime, a factor that is not a multiple of the prime can be
/// cancelled from both sides of a congruence.
pub proof fn lemma_cancel_modulo_prime(p: nat, c: nat, x: nat, y: nat)
    requires
        is_prime(p),
        c % p != 0,
        (c * x) % p == (c * y) % p,
    ensures
        x % p == y % p,
{
    let pi = p as int;
    if x >= y {
        lemma_mod_equivalence((c * x) as int, (c * y) as int, pi);
        lemma_mul_is_distributive_sub(c as int, x as int, y as int);
        lemma_prime_divides_factor(p, c, (x - y) as nat);
        lemma_mod_equivalence(x as int, y as int, pi);
    } else {
        lemma_mod_equivalence((c * y) as int, (c * x) as int, pi);
        lemma_mul_is_distributive_sub(c as int, y as int, x as int);
        lemma_prime_divides_factor(p, c, (y - x) as nat);
        lemma_mod_equivalence(y as int, x as int, pi);
    }
}

/// Modulo a prime, one has no square roots but one and minus one.
pub proof fn lemma_square_roots_of_one(p: nat, x: nat)
    requires
        is_prime(p),
        x < p,
        (x * x) % p == 1,
    ensures
        x == 1 || x == p - 1,
{
    let pi = p as int;
    if x == 0 {
        assert(x * x == 0) by (nonlinear_arith)
            requires
                x == 0,
        ;
        lemma_small_mod(0, p);
    } else {
        let lo = (x - 1) as nat;
        let hi = x + 1;
        assert(lo * hi == x * x - 1) by (nonlinear_arith)
            requires
                lo == x - 1,
                hi == x + 1,
        ;
        lemma_small_mod(1, p);
        lemma_mod_equivalence((x * x) as int, 1, pi);
        lemma_prime_divides_factor(p, lo, hi);
        if divides(p, lo) {
            lemma_small_mod(lo, p);
        } else {
            if hi < p {
                lemma_small_mod(hi, p);
            }
        }
    }
}

/// Every number from one to `n` divides the factorial of `n`.
pub proof fn lemma_factorial_has_divisor(n: nat, d: nat)
    requires
        1 <= d <= n,
    ensures
        divides(d, factorial(n)),
    decreases n,
{
    let rest = factorial((n - 1) as nat);
    if d == n {
        lemma_mod_multiples_basic(rest as int, n as int);
    } else {
        lemma_factorial_has_divisor((n - 1) as nat, d);
        lemma_mul_mod_noop_general(n as int, rest as int, d as int);
        assert((n * rest) % d == (n * 0nat) % d);
    }
}

/// The factorial of a number below a prime is not a multiple of that prime.
pub proof fn lemma_factorial_below_prime(p: nat, n: nat)
    requires
        is_prime(p),
        n < p,
    ensures
        factorial(n) % p != 0,
        factorial(n) >= 1,
    decreases n,
{
    if n == 0 {
        lemma_small_mod(1, p);
    } else {
        lemma_factorial_below_prime(p, (n - 1) as nat);
        lemma_small_mod(n, p);
        lemma_residue_product_is_not_zero(p, n, factorial((n - 1) as nat));
        assert(n * factorial((n - 1) as nat) >= 1) by (nonlinear_arith)
            requires
                n >= 1,
                factorial((n - 1) as nat) >= 1,
        ;
    }
}

/// Every number from two on has a prime divisor.
pub proof fn lemma_prime_divisor_exists(n: nat) -> (p: nat)
    requires
        n >= 2,
    ensures
        is_prime(p),
        divides(p, n),
        p <= n,
    decreases n,
{
    if is_prime(n) {
        n
    } else {
        let d = choose|d: nat| 2 <= d < n && #[trigger] divides(d, n);
        let p = lemma_prime_divisor_exists(d);
        lemma_divides_is_transitive(p, d, n);
        p
    }
}

/// A divisor of a divisor is a divisor.
pub proof fn lemma_divides_is_transitive(a: nat, b: nat, c: nat)
    requires
        divides(a, b),
        divides(b, c),
    ensures
        divides(a, c),
{
    let k = c / b;
    lemma_fundamental_div_mod(c as int, b as int);
    assert(c == b * k);
    lemma_mul_mod_noop_general(b as int, k as int, a as int);
}

/// Euclid's theorem: above every number there is a prime.
pub proof fn lemma_prime_above(n: nat) -> (p: nat)
    ensures
        is_prime(p),
        p > n,
{
    let f = factorial(n);
    lemma_factorial_is_positive(n);
    let p = lemma_prime_divisor_exists(f + 1);
    if p <= n {
        lemma_factorial_has_divisor(n, p);
        lemma_mod_equivalence((f + 1) as int, f as int, p as int);
        lemma_small_mod(1, p);
    }
    p
}

/// A factorial is at least one.
pub proof fn lemma_factorial_is_positive(n: nat)
    ensures
        factorial(n) >= 1,
    decreases n,
{
    if n > 0 {
        lemma_factorial_is_positive((n - 1) as nat);
        assert(n * factorial((n - 1) as nat) >= 1) by (nonlinear_arith)
            requires
                n >= 1,
                factorial((n - 1) as nat) >= 1,
        ;
    }
}

} // verus!
