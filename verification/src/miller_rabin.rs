//! The Miller-Rabin test: the decomposition of a candidate, one round with a
//! given witness, a run of rounds with witnesses drawn at random, and the
//! combination of the verdicts of several such runs.

use vstd::prelude::*;
use vstd::arithmetic::power2::{pow2, lemma2_to64, lemma_pow2_unfold};
use num::bigint::BigUint;
use crate::bignum::{
    difference, draw_in_range, from_u64, is_even, same, shift_right, sum, thread_generator, value,
};
use crate::modexp::mod_exp;
use crate::primes::is_prime;
use crate::witness::{
    is_decomposition, lemma_decomposition_of_odd, lemma_prime_is_strong_probable_prime,
    lemma_squared_residue_start, lemma_squared_residue_stays_one, lemma_squared_residue_step,
    lemma_strong_probable_prime, round_passes, squared_residue, strong_probable_prime,
};

verus! {

/// The number of workers that a parallel test hands its rounds to.
pub const WORKERS: usize = 8;

/// Splits `n - 1` into an odd number `d` and a power of two: returns
/// `(d, s)` with `n - 1 == d * 2^s`.
pub fn witness_decomposition(n: &BigUint) -> (r: (BigUint, BigUint))
    requires
        value(*n) >= 2,
    ensures
        is_decomposition(value(*n), value(r.0), value(r.1)),
{
    let one = from_u64(1);
    let mut d = difference(n, &one);
    let mut s = from_u64(0);
    proof {
        lemma2_to64();
    }
    while is_even(&d)
        invariant
            value(one) == 1,
            value(d) >= 1,
            value(d) * pow2(value(s)) == value(*n) - 1,
        decreases value(d),
    {
        proof {
            lemma2_to64();
            lemma_pow2_unfold(value(s) + 1);
            let half = value(d) / 2;
            let p = pow2(value(s));
            assert(half * (2 * p) == (2 * half) * p) by (nonlinear_arith);
        }
        d = shift_right(&d, 1);
        s = sum(&s, &one);
    }
    (d, s)
}

/// Runs one round for the candidate `n`, whose decomposition is `(d, s)`,
/// with the witness `a`, and tells whether the witness passes.
///
/// The round computes `a^d mod n` and squares it up to `s - 1` times. It
/// passes when the first residue is one or any of them is `n - 1`.
pub fn witness_round(n: &BigUint, d: &BigUint, s: &BigUint, a: &BigUint) -> (passed: bool)
    requires
        value(*n) > 3,
        value(*n) % 2 == 1,
        is_decomposition(value(*n), value(*d), value(*s)),
    ensures
        passed == round_passes(value(*n), value(*d), value(*s), value(*a)),
{
    let ghost nn = value(*n);
    let ghost dd = value(*d);
    let ghost ss = value(*s);
    let ghost aa = value(*a);
    proof {
        lemma_decomposition_of_odd(nn, dd, ss);
        lemma_squared_residue_start(nn, dd, aa);
    }
    let one = from_u64(1);
    let two = from_u64(2);
    let minus_one = difference(n, &one);
    let last = difference(s, &one);
    let mut x = mod_exp(a, d, n);
    if same(&x, &one) {
        return true;
    }
    if same(&x, &minus_one) {
        assert(squared_residue(nn, dd, aa, 0) == nn - 1);
        return true;
    }
    let mut i = from_u64(0);
    loop
        invariant
            nn == value(*n),
            dd == value(*d),
            ss == value(*s),
            aa == value(*a),
            nn > 3,
            ss >= 1,
            value(one) == 1,
            value(two) == 2,
            value(minus_one) == nn - 1,
            value(last) == ss - 1,
            value(i) < ss,
            value(x) == squared_residue(nn, dd, aa, value(i)),
            squared_residue(nn, dd, aa, 0) != 1,
            forall|r: nat| r <= value(i) ==> #[trigger] squared_residue(nn, dd, aa, r) != nn - 1,
        decreases ss - value(i),
    {
        proof {
            lemma_squared_residue_step(nn, dd, aa, value(i));
        }
        x = mod_exp(&x, &two, n);
        let exhausted = same(&i, &last);
        if same(&x, &one) || exhausted {
            proof {
                assert forall|r: nat| r < ss implies #[trigger] squared_residue(nn, dd, aa, r) != nn
                    - 1 by {
                    if r > value(i) {
                        lemma_squared_residue_stays_one(nn, dd, aa, value(i) + 1, r);
                    }
                }
            }
            return false;
        }
        if same(&x, &minus_one) {
            assert(squared_residue(nn, dd, aa, value(i) + 1) == nn - 1);
            return true;
        }
        i = sum(&i, &one);
    }
}

/// The witnesses `draws` account for the verdict of a series of at most `k`
/// rounds on `n`: each lies between two and `n - 2`, and to all but the last
/// `n` is a strong probable prime. A favourable verdict means that all `k`
/// rounds took place and the last witness passed too; an unfavourable one,
/// that the last witness failed, at which the series stopped.
pub open spec fn rounds_explain(n: nat, k: nat, draws: Seq<nat>, verdict: bool) -> bool {
    &&& draws.len() <= k
    &&& forall|i: int| 0 <= i < draws.len() ==> 2 <= #[trigger] draws[i] <= n - 2
    &&& forall|i: int| 0 <= i < draws.len() - 1 ==> strong_probable_prime(n, #[trigger] draws[i])
    &&& verdict ==> draws.len() == k && (k > 0 ==> strong_probable_prime(n, draws.last()))
    &&& !verdict ==> draws.len() >= 1 && !strong_probable_prime(n, draws.last())
}

/// An unfavourable verdict is final: a run that rejects its candidate has
/// found a witness against it, and the candidate is composite.
pub proof fn lemma_rejection_is_sound(n: nat, k: nat, draws: Seq<nat>)
    requires
        n > 3,
        n % 2 == 1,
        rounds_explain(n, k, draws, false),
    ensures
        !is_prime(n),
{
    let a = draws.last();
    if is_prime(n) {
        lemma_prime_is_strong_probable_prime(n, a);
    }
}

/// Runs `k` rounds for the candidate `n`, whose decomposition is `(d, s)`,
/// each with a witness drawn at random between two and `n - 2`, and stops
/// at the first that fails.
///
/// Returns `false` when a witness failed, which proves `n` composite, and
/// `true` when all `k` passed, which makes `n` a probable prime. A prime is
/// never rejected.
pub fn miller_rabin_thread(n: &BigUint, d: &BigUint, s: &BigUint, k: usize) -> (verdict: bool)
    requires
        value(*n) > 3,
        value(*n) % 2 == 1,
        is_decomposition(value(*n), value(*d), value(*s)),
    ensures
        exists|draws: Seq<nat>| rounds_explain(value(*n), k as nat, draws, verdict),
        is_prime(value(*n)) ==> verdict,
        k == 0 ==> verdict,
{
    let ghost nn = value(*n);
    let ghost dd = value(*d);
    let ghost ss = value(*s);
    let mut rng = thread_generator();
    let one = from_u64(1);
    let two = from_u64(2);
    let bound = difference(n, &one);
    let ghost mut draws: Seq<nat> = Seq::empty();
    let mut round: usize = 0;
    while round < k
        invariant
            nn == value(*n),
            dd == value(*d),
            ss == value(*s),
            nn > 3,
            nn % 2 == 1,
            is_decomposition(nn, dd, ss),
            value(two) == 2,
            value(bound) == nn - 1,
            round <= k,
            draws.len() == round,
            forall|i: int| 0 <= i < draws.len() ==> 2 <= #[trigger] draws[i] <= nn - 2,
            forall|i: int| 0 <= i < draws.len() ==> strong_probable_prime(nn, #[trigger] draws[i]),
        decreases k - round,
    {
        let a = draw_in_range(&mut rng, &two, &bound);
        let passed = witness_round(n, d, s, &a);
        proof {
            draws = draws.push(value(a));
            lemma_strong_probable_prime(nn, dd, ss, value(a));
        }
        if !passed {
            proof {
                lemma_rejection_is_sound(nn, k as nat, draws);
            }
            return false;
        }
        round = round + 1;
    }
    proof {
        assert(rounds_explain(nn, k as nat, draws, true));
    }
    true
}

/// Tests the candidate `n` with `k` rounds on the calling thread: finds the
/// decomposition of `n` and runs the rounds with it.
pub fn miller_rabin(n: &BigUint, k: usize) -> (verdict: bool)
    requires
        value(*n) > 3,
        value(*n) % 2 == 1,
    ensures
        exists|draws: Seq<nat>| rounds_explain(value(*n), k as nat, draws, verdict),
        is_prime(value(*n)) ==> verdict,
        k == 0 ==> verdict,
{
    let (d, s) = witness_decomposition(n);
    miller_rabin_thread(n, &d, &s, k)
}

/// Shares `k` rounds out among the [`WORKERS`] of a parallel test: one
/// entry for each worker, each the eighth part of `k`, rounded down.
pub fn worker_shares(k: usize) -> (shares: Vec<usize>)
    ensures
        shares@.len() == WORKERS,
        forall|i: int| 0 <= i < shares@.len() ==> #[trigger] shares@[i] == k / WORKERS,
{
    let share = k / WORKERS;
    let mut shares: Vec<usize> = Vec::new();
    while shares.len() < WORKERS
        invariant
            share == k / WORKERS,
            shares@.len() <= WORKERS,
            forall|i: int| 0 <= i < shares@.len() ==> #[trigger] shares@[i] == share,
        decreases WORKERS - shares@.len(),
    {
        shares.push(share);
    }
    shares
}

/// Every report is favourable.
pub open spec fn all_favourable(reports: Seq<bool>) -> bool {
    forall|i: int| 0 <= i < reports.len() ==> #[trigger] reports[i]
}

/// Combines the verdicts that the workers of a parallel test reported: the
/// candidate is a probable prime only if no worker rejected it. Every report
/// is read; none is skipped once a rejection has been seen.
pub fn combine_verdicts(reports: &Vec<bool>) -> (verdict: bool)
    ensures
        verdict == all_favourable(reports@),
{
    let mut prime = true;
    let mut i: usize = 0;
    while i < reports.len()
        invariant
            i <= reports.len(),
            prime == all_favourable(reports@.subrange(0, i as int)),
        decreases reports.len() - i,
    {
        let ghost before = reports@.subrange(0, i as int);
        let ghost after = reports@.subrange(0, i + 1);
        if !reports[i] {
            proof {
                assert(!after[i as int]);
            }
            prime = false;
        } else {
            proof {
                if all_favourable(before) {
                    assert forall|j: int| 0 <= j < after.len() implies #[trigger] after[j] by {
                        if j < i {
                            assert(before[j]);
                        }
                    }
                } else {
                    let j = choose|j: int| 0 <= j < before.len() && !before[j];
                    assert(!after[j]);
                }
            }
        }
        i = i + 1;
    }
    proof {
        assert(reports@.subrange(0, i as int) =~= reports@);
    }
    prime
}

/// The combined verdict does not depend on the order in which the workers
/// reported.
pub proof fn lemma_combination_ignores_order(first: Seq<bool>, second: Seq<bool>)
    requires
        first.to_multiset() =~= second.to_multiset(),
    ensures
        all_favourable(first) == all_favourable(second),
{
    first.to_multiset_ensures();
    second.to_multiset_ensures();
    if !all_favourable(first) {
        let i = choose|i: int| 0 <= i < first.len() && !first[i];
        assert(first.contains(false));
        assert(second.to_multiset().count(false) > 0);
    }
    if !all_favourable(second) {
        let i = choose|i: int| 0 <= i < second.len() && !second[i];
        assert(second.contains(false));
        assert(first.to_multiset().count(false) > 0);
    }
}

/// One rejection among the reports of the workers is final: if each report
/// is the verdict of a series of rounds on `n`, and the reports are not all
/// favourable, then `n` is composite. So a parallel test accepts every
/// prime.
pub proof fn lemma_combined_rejection_is_sound(n: nat, shares: Seq<nat>, reports: Seq<bool>)
    requires
        n > 3,
        n % 2 == 1,
        shares.len() == reports.len(),
        forall|i: int|
            0 <= i < reports.len() ==> exists|draws: Seq<nat>|
                rounds_explain(n, shares[i], draws, #[trigger] reports[i]),
        !all_favourable(reports),
    ensures
        !is_prime(n),
{
    let i = choose|i: int| 0 <= i < reports.len() && !reports[i];
    let draws = choose|draws: Seq<nat>| rounds_explain(n, shares[i], draws, reports[i]);
    lemma_rejection_is_sound(n, shares[i], draws);
}

} // verus!
