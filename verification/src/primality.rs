//! The primality oracle: the cases that are settled at sight, and the
//! Miller-Rabin test for the rest.

use vstd::prelude::*;
use num::bigint::BigUint;
use crate::bignum::{from_u64, is_even, less, same, value};
use crate::miller_rabin::{miller_rabin, rounds_explain};
use crate::primes::{is_prime, lemma_even_or_small_is_not_prime};

verus! {

/// The number of rounds that a primality test runs unless told otherwise. A
/// composite survives that many rounds with a probability of at most
/// `4^-100`.
pub const DEFAULT_ROUNDS: usize = 100;

/// What can be said of `n` at sight: two and three are prime, and no number
/// below two and no other even number is. For all other numbers the answer is
/// open.
pub open spec fn settled_at_sight(n: nat) -> Option<bool> {
    if n == 2 || n == 3 {
        Some(true)
    } else if n < 2 || n % 2 == 0 {
        Some(false)
    } else {
        None
    }
}

/// What is settled at sight is settled rightly, and what is left open is an
/// odd number above three.
pub proof fn lemma_settled_at_sight(n: nat)
    ensures
        settled_at_sight(n) == Some(true) ==> is_prime(n),
        settled_at_sight(n) == Some(false) ==> !is_prime(n),
        settled_at_sight(n) is None ==> n > 3 && n % 2 == 1,
{
    if settled_at_sight(n) == Some(false) {
        lemma_even_or_small_is_not_prime(n);
    }
}

/// Settles the candidates that need no test: `Some(true)` for two and three,
/// `Some(false)` for the numbers below two and the other even numbers, and
/// `None` for the odd numbers above three, which call for a Miller-Rabin
/// test.
pub fn screen(n: &BigUint) -> (r: Option<bool>)
    ensures
        r == settled_at_sight(value(*n)),
{
    let two = from_u64(2);
    let three = from_u64(3);
    if same(n, &three) || same(n, &two) {
        return Some(true);
    }
    if less(n, &two) || is_even(n) {
        return Some(false);
    }
    None
}

/// What a primality test with `rounds` rounds has to say for its verdict on
/// `n`: where the answer is settled at sight the verdict is that answer and
/// nothing was drawn; otherwise `draws` are the witnesses of a run of
/// Miller-Rabin rounds that explain it.
pub open spec fn verdict_explained(n: nat, rounds: nat, draws: Seq<nat>, verdict: bool) -> bool {
    match settled_at_sight(n) {
        Some(answer) => verdict == answer && draws.len() == 0,
        None => rounds_explain(n, rounds, draws, verdict),
    }
}

/// Tells whether `n` is prime, with `rounds` rounds of the Miller-Rabin test
/// where the answer is not settled at sight.
///
/// The answer `false` is always right. The answer `true` is right for every
/// prime; a composite gets it only if it is odd, above three, and a strong
/// probable prime to each of `rounds` witnesses drawn at random.
pub fn is_prime_helper(n: &BigUint, rounds: usize) -> (verdict: bool)
    ensures
        exists|draws: Seq<nat>| verdict_explained(value(*n), rounds as nat, draws, verdict),
        is_prime(value(*n)) ==> verdict,
        value(*n) < 2 ==> !verdict,
        value(*n) <= 3 || value(*n) % 2 == 0 ==> verdict == is_prime(value(*n)),
{
    proof {
        lemma_settled_at_sight(value(*n));
    }
    match screen(n) {
        Some(answer) => {
            proof {
                assert(verdict_explained(value(*n), rounds as nat, Seq::<nat>::empty(), answer));
            }
            answer
        },
        None => {
            let verdict = miller_rabin(n, rounds);
            proof {
                let draws = choose|draws: Seq<nat>|
                    rounds_explain(value(*n), rounds as nat, draws, verdict);
                assert(verdict_explained(value(*n), rounds as nat, draws, verdict));
            }
            verdict
        },
    }
}

} // verus!
