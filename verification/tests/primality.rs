use biguint_crypto::miller_rabin::{
    combine_verdicts, miller_rabin, miller_rabin_thread, witness_decomposition, witness_round,
    worker_shares, WORKERS,
};
use biguint_crypto::num_ext::BigUintCrypto;
use biguint_crypto::primality::{is_prime_helper, screen, DEFAULT_ROUNDS};
use num::bigint::BigUint;

fn big(v: u64) -> BigUint {
    BigUint::from(v)
}

fn prime_by_trial_division(n: u64) -> bool {
    if n < 2 {
        return false;
    }
    let mut d = 2;
    while d * d <= n {
        if n % d == 0 {
            return false;
        }
        d += 1;
    }
    true
}

#[test]
fn is_prime_test() {
    let known_prime = BigUint::parse_bytes(
        "4829837983753984028472098472089547098728675098723407520875297".as_bytes(),
        10,
    )
    .unwrap();

    assert!(BigUint::is_prime(&known_prime));
}

#[test]
#[should_panic(expected = "assertion failed")]
fn is_prime_test_failuire() {
    let not_prime = BigUint::parse_bytes(
        "359709793871987301975987296195681798740165298740176567105918720469720137416098423"
            .as_bytes(),
        10,
    )
    .unwrap();

    assert!(BigUint::is_prime(&not_prime));
}

#[test]
fn is_prime_rejects_known_large_composite() {
    let not_prime = BigUint::parse_bytes(
        b"359709793871987301975987296195681798740165298740176567105918720469720137416098423",
        10,
    )
    .unwrap();
    assert_eq!(BigUint::is_prime(&not_prime), false);
}

#[test]
fn is_prime_accepts_small_primes() {
    let primes = [
        2u64, 3, 5, 7, 11, 13, 17, 19, 23, 29, 31, 37, 41, 43, 47, 53, 59, 61, 67, 71, 73, 79, 83,
        89, 97, 101, 103, 107, 109, 113, 127, 131, 137, 139, 149, 151, 157, 163, 167, 173, 179,
        181, 191, 193, 197, 199, 211, 223, 227, 229, 233, 239, 241, 251, 257, 263, 269, 271, 277,
        281, 283, 293, 307, 311, 313, 317, 331, 337, 347, 349, 353, 359, 367, 373, 379, 383, 389,
        397,
    ];
    for p in primes {
        assert!(BigUint::is_prime(&big(p)), "{} is prime", p);
    }
}

#[test]
fn is_prime_rejects_small_composites() {
    for c in [4u64, 6, 8, 9, 15, 21, 25, 27, 33, 35, 49, 91, 100, 121, 169, 221, 341, 561] {
        assert!(!BigUint::is_prime(&big(c)), "{} is composite", c);
    }
}

#[test]
fn is_prime_rejects_numbers_below_two() {
    assert!(!BigUint::is_prime(&big(0)));
    assert!(!BigUint::is_prime(&big(1)));
}

#[test]
fn is_prime_agrees_with_trial_division() {
    for n in 0..2000u64 {
        assert_eq!(
            BigUint::is_prime(&big(n)),
            prime_by_trial_division(n),
            "primality of {}",
            n
        );
    }
}

#[test]
fn is_prime_rejects_strong_pseudoprimes_to_base_two() {
    for c in [2047u64, 3277, 4033, 4681, 8321] {
        assert!(!prime_by_trial_division(c));
        assert!(!BigUint::is_prime(&big(c)), "{} is composite", c);
    }
}

#[test]
fn is_prime_rejects_carmichael_numbers() {
    for c in [561u64, 1105, 1729, 2465, 2821, 6601, 8911] {
        assert!(!BigUint::is_prime(&big(c)), "{} is composite", c);
    }
}

#[test]
fn is_prime_helper_with_explicit_rounds() {
    assert!(is_prime_helper(&big(104729), 20));
    assert!(!is_prime_helper(&big(104731), 20));
    assert_eq!(DEFAULT_ROUNDS, 100);
}

#[test]
fn is_prime_helper_never_rejects_a_prime() {
    for rounds in [0usize, 1, 2, 5] {
        for p in [5u64, 7, 11, 13, 97, 7919, 104729] {
            assert!(is_prime_helper(&big(p), rounds));
        }
    }
}

#[test]
fn is_prime_helper_without_rounds_accepts_every_odd_number_above_three() {
    assert!(is_prime_helper(&big(9), 0));
    assert!(is_prime_helper(&big(15), 0));
    assert!(!is_prime_helper(&big(8), 0));
    assert!(!is_prime_helper(&big(1), 0));
}

#[test]
fn screen_settles_small_and_even_numbers() {
    assert_eq!(screen(&big(0)), Some(false));
    assert_eq!(screen(&big(1)), Some(false));
    assert_eq!(screen(&big(2)), Some(true));
    assert_eq!(screen(&big(3)), Some(true));
    assert_eq!(screen(&big(4)), Some(false));
    assert_eq!(screen(&big(100)), Some(false));
}

#[test]
fn screen_leaves_odd_numbers_above_three_open() {
    assert_eq!(screen(&big(5)), None);
    assert_eq!(screen(&big(9)), None);
    assert_eq!(screen(&big(101)), None);
}

#[test]
fn witness_decomposition_of_small_candidates() {
    assert_eq!(witness_decomposition(&big(2)), (big(1), big(0)));
    assert_eq!(witness_decomposition(&big(5)), (big(1), big(2)));
    assert_eq!(witness_decomposition(&big(13)), (big(3), big(2)));
    assert_eq!(witness_decomposition(&big(221)), (big(55), big(2)));
    assert_eq!(witness_decomposition(&big(1025)), (big(1), big(10)));
    assert_eq!(witness_decomposition(&big(8)), (big(7), big(0)));
}

#[test]
fn witness_decomposition_of_large_candidate() {
    let n = BigUint::parse_bytes(
        b"4829837983753984028472098472089547098728675098723407520875297",
        10,
    )
    .unwrap();
    let d = BigUint::parse_bytes(
        b"150932436992312000889753077252798346835271096835106485027353",
        10,
    )
    .unwrap();
    let (got_d, got_s) = witness_decomposition(&n);
    assert_eq!(got_d, d);
    assert_eq!(got_s, big(5));
    assert_eq!(&got_d * big(32) + big(1), n);
}

#[test]
fn witness_round_tells_liar_from_witness() {
    let n = big(221);
    let (d, s) = witness_decomposition(&n);
    assert!(witness_round(&n, &d, &s, &big(174)));
    assert!(!witness_round(&n, &d, &s, &big(137)));
}

#[test]
fn witness_round_passes_when_first_residue_is_one() {
    let n = big(2047);
    let (d, s) = witness_decomposition(&n);
    assert_eq!((d.clone(), s.clone()), (big(1023), big(1)));
    assert!(witness_round(&n, &d, &s, &big(2)));
    assert!(!witness_round(&n, &d, &s, &big(3)));
}

#[test]
fn witness_round_passes_for_every_witness_of_a_prime() {
    for p in [5u64, 7, 13, 17, 97, 257] {
        let n = big(p);
        let (d, s) = witness_decomposition(&n);
        for a in 1..p {
            assert!(witness_round(&n, &d, &s, &big(a)), "{} to base {}", p, a);
        }
    }
}

#[test]
fn witness_round_agrees_with_definition() {
    for n in (5u64..200).step_by(2) {
        let mut d = n - 1;
        let mut s = 0;
        while d % 2 == 0 {
            d /= 2;
            s += 1;
        }
        let (bd, bs) = witness_decomposition(&big(n));
        for a in 2..n - 1 {
            let mut x = 1u64;
            for _ in 0..d {
                x = x * a % n;
            }
            let mut expected = x == 1;
            for _ in 0..s {
                if x == n - 1 {
                    expected = true;
                }
                x = x * x % n;
            }
            assert_eq!(
                witness_round(&big(n), &bd, &bs, &big(a)),
                expected,
                "{} to base {}",
                n,
                a
            );
        }
    }
}

#[test]
fn miller_rabin_thread_without_rounds_accepts() {
    let n = big(221);
    let (d, s) = witness_decomposition(&n);
    assert!(miller_rabin_thread(&n, &d, &s, 0));
}

#[test]
fn miller_rabin_thread_draws_more_than_one_witness() {
    // 2047 passes to the base two, the least witness that can be drawn.
    let n = big(2047);
    let (d, s) = witness_decomposition(&n);
    assert!(!miller_rabin_thread(&n, &d, &s, 100));
}

#[test]
fn miller_rabin_thread_on_least_candidate() {
    let n = big(5);
    let (d, s) = witness_decomposition(&n);
    assert!(miller_rabin_thread(&n, &d, &s, 50));
}

#[test]
fn miller_rabin_on_prime_and_composite() {
    assert!(miller_rabin(&big(7919), 100));
    assert!(!miller_rabin(&big(7917), 100));
    let known_prime = BigUint::parse_bytes(
        b"4829837983753984028472098472089547098728675098723407520875297",
        10,
    )
    .unwrap();
    assert!(miller_rabin(&known_prime, 100));
}

#[test]
fn worker_shares_are_eight_eighth_parts() {
    assert_eq!(WORKERS, 8);
    assert_eq!(worker_shares(100), vec![12; 8]);
    assert_eq!(worker_shares(8), vec![1; 8]);
    assert_eq!(worker_shares(7), vec![0; 8]);
    assert_eq!(worker_shares(0), vec![0; 8]);
}

#[test]
fn combine_verdicts_is_conjunction() {
    assert!(combine_verdicts(&vec![]));
    assert!(combine_verdicts(&vec![true]));
    assert!(combine_verdicts(&vec![true; 8]));
    assert!(!combine_verdicts(&vec![false]));
    assert!(!combine_verdicts(&vec![false; 8]));
}

#[test]
fn combine_verdicts_ignores_order() {
    for position in 0..8 {
        let mut reports = vec![true; 8];
        reports[position] = false;
        assert!(!combine_verdicts(&reports));
    }
}

#[test]
fn workers_share_accepts_prime_and_rejects_composite() {
    for (candidate, expected) in [(7919u64, true), (7917, false)] {
        let n = big(candidate);
        let (d, s) = witness_decomposition(&n);
        let mut reports = Vec::new();
        for share in worker_shares(DEFAULT_ROUNDS) {
            reports.push(miller_rabin_thread(&n, &d, &s, share));
        }
        assert_eq!(combine_verdicts(&reports), expected);
    }
}
