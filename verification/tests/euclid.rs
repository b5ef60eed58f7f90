use biguint_crypto::gcdext::{gcdext, Signed};
use biguint_crypto::num_ext::BigUintCrypto;
use num::bigint::{BigInt, BigUint, Sign};

fn big(v: u64) -> BigUint {
    BigUint::from(v)
}

fn signed(v: i64) -> Signed {
    Signed { negative: v < 0, magnitude: BigUint::from(v.unsigned_abs()) }
}

fn as_bigint(v: &Signed) -> BigInt {
    let sign = if v.negative { Sign::Minus } else { Sign::Plus };
    BigInt::from_biguint(sign, v.magnitude.clone())
}

fn gcd_by_search(a: u64, b: u64) -> u64 {
    let mut best = 0;
    for c in 1..=a.max(b) {
        if a % c == 0 && b % c == 0 {
            best = c;
        }
    }
    best
}

#[test]
fn gcdext_exact_values() {
    let (g, x, y) = gcdext(&big(240), &big(46));
    assert_eq!(g, big(2));
    assert_eq!(as_bigint(&x), BigInt::from(-9));
    assert_eq!(as_bigint(&y), BigInt::from(47));
}

#[test]
fn gcdext_swapped_arguments() {
    let (g, x, y) = gcdext(&big(46), &big(240));
    assert_eq!(g, big(2));
    assert_eq!(as_bigint(&x), BigInt::from(47));
    assert_eq!(as_bigint(&y), BigInt::from(-9));
}

#[test]
fn gcdext_method_agrees_with_function() {
    let (g, x, y) = big(12).gcdext(&big(18));
    assert_eq!(g, big(6));
    assert_eq!(as_bigint(&x), BigInt::from(-1));
    assert_eq!(as_bigint(&y), BigInt::from(1));
}

#[test]
fn gcdext_of_zero_and_zero_is_zero() {
    let (g, x, y) = gcdext(&big(0), &big(0));
    assert_eq!(g, big(0));
    assert_eq!(
        BigInt::from(0) * as_bigint(&x) + BigInt::from(0) * as_bigint(&y),
        BigInt::from(0)
    );
}

#[test]
fn gcdext_with_one_zero_argument() {
    let (g, x, _) = gcdext(&big(17), &big(0));
    assert_eq!(g, big(17));
    assert_eq!(as_bigint(&x), BigInt::from(1));
    let (g, _, y) = gcdext(&big(0), &big(17));
    assert_eq!(g, big(17));
    assert_eq!(as_bigint(&y), BigInt::from(1));
}

#[test]
fn gcdext_of_equal_arguments() {
    let (g, x, y) = gcdext(&big(7), &big(7));
    assert_eq!(g, big(7));
    assert_eq!(as_bigint(&x) * BigInt::from(7) + as_bigint(&y) * BigInt::from(7), BigInt::from(7));
}

#[test]
fn gcdext_satisfies_identity_and_is_greatest() {
    for a in 0..40u64 {
        for b in 0..40u64 {
            let (g, x, y) = gcdext(&big(a), &big(b));
            assert_eq!(g, big(gcd_by_search(a, b)), "gcd of {} and {}", a, b);
            assert_eq!(
                BigInt::from(a) * as_bigint(&x) + BigInt::from(b) * as_bigint(&y),
                BigInt::from(g),
                "coefficients for {} and {}",
                a,
                b
            );
        }
    }
}

#[test]
fn gcdext_never_marks_zero_negative() {
    for a in 0..30u64 {
        for b in 0..30u64 {
            let (_, x, y) = gcdext(&big(a), &big(b));
            assert!(!(x.negative && x.magnitude == big(0)));
            assert!(!(y.negative && y.magnitude == big(0)));
        }
    }
}

#[test]
fn gcdext_of_large_coprime_numbers() {
    let a = BigUint::parse_bytes(
        b"4829837983753984028472098472089547098728675098723407520875297",
        10,
    )
    .unwrap();
    let b = BigUint::parse_bytes(
        b"359709793871987301975987296195681798740165298740176567105918720469720137416098423",
        10,
    )
    .unwrap();
    let (g, x, y) = gcdext(&a, &b);
    assert_eq!(g, big(1));
    assert_eq!(
        as_bigint(&x),
        BigInt::parse_bytes(
            b"59440521946407354748866018561785634077851689107428403439628841467550376378069218",
            10
        )
        .unwrap()
    );
    assert_eq!(
        as_bigint(&y),
        BigInt::parse_bytes(
            b"-798110297694837825508106895134033159349204388555980637291815",
            10
        )
        .unwrap()
    );
    assert_eq!(
        BigInt::from(a) * as_bigint(&x) + BigInt::from(b) * as_bigint(&y),
        BigInt::from(1)
    );
}

#[test]
fn signed_from_magnitude_is_not_negative() {
    let v = Signed::from_magnitude(big(5));
    assert!(!v.negative);
    assert_eq!(v.magnitude, big(5));
}

#[test]
fn signed_sub_mul_covers_all_signs() {
    for a in -6i64..=6 {
        for f in 0u64..=4 {
            for b in -6i64..=6 {
                let got = signed(a).sub_mul(&big(f), &signed(b));
                let expected = a - (f as i64) * b;
                assert_eq!(as_bigint(&got), BigInt::from(expected), "{} - {} * {}", a, f, b);
                assert!(!(got.negative && got.magnitude == big(0)));
            }
        }
    }
}
