//! The search for the next prime above a number.

use vstd::prelude::*;
use num::bigint::BigUint;
use crate::bignum::{from_u64, is_even, sum, value};
use crate::primality::{is_prime_helper, verdict_explained};
use crate::primes::{is_prime, lemma_even_or_small_is_not_prime, lemma_prime_above};

verus! {

/// The first number that a search from `start` tests: the next odd number
/// above `start`.
pub open spec fn first_candidate_after(start: nat) -> nat {
    if start % 2 == 0 {
        start + 1
    } else {
        start + 2
    }
}

/// No prime but possibly two lies strictly between `low` and `high`.
pub open spec fn no_odd_prime_between(low: nat, high: nat) -> bool {
    forall|q: nat| low < q < high && #[trigger] is_prime(q) ==> q == 2
}

/// A search has one right answer: two odd primes above `start`, on the way
/// to each of which no odd prime was passed over, are the same. So two
/// searches from one start agree whenever neither accepted a composite.
pub proof fn lemma_search_result_is_determined(start: nat, p: nat, q: nat)
    requires
        is_prime(p),
        is_prime(q),
        p % 2 == 1,
        q % 2 == 1,
        start < p,
        start < q,
        no_odd_prime_between(start, p),
        no_odd_prime_between(start, q),
    ensures
        p == q,
{
}

/// The first candidate of a search from `start`: `start + 1` when `start`
/// is even and `start + 2` when it is odd, so that the search never tests
/// `start` itself nor any even number.
pub fn first_candidate(start: &BigUint) -> (candidate: BigUint)
    ensures
        value(candidate) == first_candidate_after(value(*start)),
        value(candidate) % 2 == 1,
        value(candidate) > value(*start),
{
    if is_even(start) {
        sum(start, &from_u64(1))
    } else {
        sum(start, &from_u64(2))
    }
}

/// How a search goes on once a candidate has been tested.
pub enum SearchStep {
    /// The search has ended with this number.
    Found(BigUint),
    /// This number is to be tested next.
    Test(BigUint),
}

/// Takes the verdict on `candidate` into account: an accepted candidate ends
/// the search, and a rejected one is followed by the next odd number.
pub fn search_step(candidate: BigUint, accepted: bool) -> (step: SearchStep)
    ensures
        accepted ==> (step matches SearchStep::Found(p) && value(p) == value(candidate)),
        !accepted ==> (step matches SearchStep::Test(next) && value(next) == value(candidate)
            + 2),
{
    if accepted {
        SearchStep::Found(candidate)
    } else {
        SearchStep::Test(sum(&candidate, &from_u64(2)))
    }
}

/// Finds the next probable prime above `n`, testing each odd number in turn
/// with `rounds` Miller-Rabin rounds.
///
/// The result is odd, above `n`, and was accepted by the primality test. No
/// prime was passed over on the way, except that the even prime two is never
/// a candidate: a search from zero or one gives three. The search ends,
/// since the test accepts every prime and there is a prime above every
/// number.
pub fn next_prime_helper(n: &BigUint, rounds: usize) -> (p: BigUint)
    ensures
        value(p) > value(*n),
        value(p) % 2 == 1,
        value(p) >= 3,
        no_odd_prime_between(value(*n), value(p)),
        value(*n) >= 2 ==> forall|q: nat| value(*n) < q < value(p) ==> !is_prime(q),
        value(*n) < 2 ==> value(p) == 3,
        exists|draws: Seq<nat>| verdict_explained(value(p), rounds as nat, draws, true),
{
    let ghost start = value(*n);
    let ghost limit = lemma_prime_above(if start < 2 { 2 } else { start });
    proof {
        if limit % 2 == 0 {
            lemma_even_or_small_is_not_prime(limit);
        }
    }
    let mut candidate = first_candidate(n);
    proof {
        assert forall|q: nat| start < q < value(candidate) && #[trigger] is_prime(q) implies q
            == 2 by {
            if q != 2 {
                lemma_even_or_small_is_not_prime(q);
            }
        }
    }
    loop
        invariant
            start == value(*n),
            is_prime(limit),
            limit % 2 == 1,
            value(candidate) <= limit,
            value(candidate) % 2 == 1,
            value(candidate) > start,
            no_odd_prime_between(start, value(candidate)),
        decreases limit - value(candidate),
    {
        let ghost tested = value(candidate);
        let accepted = is_prime_helper(&candidate, rounds);
        match search_step(candidate, accepted) {
            SearchStep::Found(p) => {
                proof {
                    if start < 2 && tested > 3 {
                        assert(is_prime(3));
                    }
                }
                return p;
            },
            SearchStep::Test(next) => {
                candidate = next;
            },
        }
        proof {
            assert forall|q: nat| start < q < value(candidate) && #[trigger] is_prime(q) implies q
                == 2 by {
                if q == tested + 1 && q != 2 {
                    lemma_even_or_small_is_not_prime(q);
                }
            }
        }
    }
}

} // verus!
