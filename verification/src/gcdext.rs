//! The extended Euclidean algorithm: the greatest common divisor of two
//! numbers together with coefficients that combine the two into it.

use vstd::prelude::*;
use vstd::arithmetic::div_mod::{
    lemma_add_mod_noop, lemma_fundamental_div_mod, lemma_mod_twice, lemma_mul_mod_noop_general,
    lemma_small_mod,
};
use num::bigint::BigUint;
use crate::bignum::{difference, from_u64, less, product, quotient_remainder, same, sum, value};
use crate::primes::divides;

verus! {

/// An integer of either sign: a magnitude of arbitrary precision and a flag
/// that tells whether it stands below zero.
#[derive(Debug)]
pub struct Signed {
    pub negative: bool,
    pub magnitude: BigUint,
}

impl View for Signed {
    type V = int;

    /// The integer that the value stands for.
    open spec fn view(&self) -> int {
        if self.negative {
            -(value(self.magnitude) as int)
        } else {
            value(self.magnitude) as int
        }
    }
}

impl Signed {
    /// Zero is never marked negative, so that each integer is written in
    /// one way only.
    pub open spec fn well_formed(&self) -> bool {
        self.negative ==> value(self.magnitude) > 0
    }

    /// The non-negative integer `magnitude`.
    pub fn from_magnitude(magnitude: BigUint) -> (r: Signed)
        ensures
            r@ == value(magnitude),
            r.well_formed(),
            !r.negative,
            r.magnitude == magnitude,
    {
        Signed { negative: false, magnitude }
    }

    /// Computes `self - factor * other`.
    pub fn sub_mul(&self, factor: &BigUint, other: &Signed) -> (r: Signed)
        requires
            self.well_formed(),
            other.well_formed(),
        ensures
            r@ == self@ - value(*factor) * other@,
            r.well_formed(),
    {
        let scaled = product(factor, &other.magnitude);
        proof {
            let f = value(*factor) as int;
            let m = value(other.magnitude) as int;
            assert(f * (-m) == -(f * m)) by (nonlinear_arith);
        }
        if self.negative != other.negative {
            Signed { negative: self.negative, magnitude: sum(&self.magnitude, &scaled) }
        } else if less(&self.magnitude, &scaled) {
            Signed { negative: !self.negative, magnitude: difference(&scaled, &self.magnitude) }
        } else {
            let magnitude = difference(&self.magnitude, &scaled);
            let zero = from_u64(0);
            let negative = self.negative && !same(&magnitude, &zero);
            Signed { negative, magnitude }
        }
    }
}

/// `c` divides both `a` and `b`.
pub open spec fn is_common_divisor(c: nat, a: nat, b: nat) -> bool {
    divides(c, a) && divides(c, b)
}

/// `g` is the greatest common divisor of `a` and `b`: it divides both, and
/// no common divisor is greater. The greatest common divisor of zero and
/// zero is zero.
pub open spec fn is_gcd(g: nat, a: nat, b: nat) -> bool {
    if a == 0 && b == 0 {
        g == 0
    } else {
        &&& is_common_divisor(g, a, b)
        &&& forall|c: nat| #[trigger] is_common_divisor(c, a, b) ==> c <= g
    }
}

/// Two numbers have one greatest common divisor only.
pub proof fn lemma_gcd_is_unique(g1: nat, g2: nat, a: nat, b: nat)
    requires
        is_gcd(g1, a, b),
        is_gcd(g2, a, b),
    ensures
        g1 == g2,
{
    if !(a == 0 && b == 0) {
        assert(is_common_divisor(g1, a, b) && is_common_divisor(g2, a, b));
    }
}

/// Two numbers have the same common divisors as the second of them has with
/// the remainder of their division.
pub proof fn lemma_common_divisors_of_remainder(c: nat, x: nat, y: nat)
    requires
        y > 0,
    ensures
        is_common_divisor(c, x, y) == is_common_divisor(c, y, x % y),
{
    if c > 0 && y % c == 0 {
        let q = x / y;
        let r = x % y;
        let ci = c as int;
        lemma_fundamental_div_mod(x as int, y as int);
        lemma_mul_mod_noop_general(y as int, q as int, ci);
        assert((y * q) % c == (0nat * q) % c);
        lemma_add_mod_noop((y * q) as int, r as int, ci);
        lemma_mod_twice(r as int, ci);
    }
}

/// Subtracting `q` times one combination of `a` and `b` from another gives
/// the combination whose coefficients are subtracted in the same way.
proof fn lemma_combination_of_remainder(
    a: int,
    b: int,
    q: int,
    x0: int,
    x1: int,
    y0: int,
    y1: int,
)
    ensures
        a * (x0 - q * x1) + b * (y0 - q * y1) == (a * x0 + b * y0) - q * (a * x1 + b * y1),
{
    assert(a * (x0 - q * x1) == a * x0 - q * (a * x1)) by (nonlinear_arith);
    assert(b * (y0 - q * y1) == b * y0 - q * (b * y1)) by (nonlinear_arith);
    assert(q * (a * x1 + b * y1) == q * (a * x1) + q * (b * y1)) by (nonlinear_arith);
}

/// When the common divisors of `a` and `b` are the divisors of `g`, then
/// `g` is their greatest common divisor.
proof fn lemma_gcd_from_last_remainder(g: nat, a: nat, b: nat)
    requires
        forall|c: nat| #[trigger] is_common_divisor(c, g, 0) == is_common_divisor(c, a, b),
        g == 0 ==> a == 0 && b == 0,
    ensures
        is_gcd(g, a, b),
        forall|c: nat| #[trigger] is_common_divisor(c, a, b) ==> divides(c, g),
{
    assert forall|c: nat| #[trigger] is_common_divisor(c, a, b) implies divides(c, g) by {
        assert(is_common_divisor(c, g, 0));
    }
    if g != 0 {
        assert(is_common_divisor(g, g, 0));
        assert(!(a == 0 && b == 0)) by {
            if a == 0 && b == 0 {
                let c = g + 1;
                assert(is_common_divisor(c, g, 0));
                lemma_small_mod(g, c);
            }
        }
        assert forall|c: nat| #[trigger] is_common_divisor(c, a, b) implies c <= g by {
            assert(is_common_divisor(c, g, 0));
            if c > g {
                lemma_small_mod(g, c);
            }
        }
    }
}

/// Finds the greatest common divisor `g` of `a` and `b` and coefficients `x`
/// and `y` with `g == a * x + b * y`, by the extended Euclidean algorithm.
/// Returns `(g, x, y)`.
///
/// Every common divisor of `a` and `b` divides `g`.
pub fn gcdext(a: &BigUint, b: &BigUint) -> (r: (BigUint, Signed, Signed))
    ensures
        is_gcd(value(r.0), value(*a), value(*b)),
        forall|c: nat| #[trigger]
            is_common_divisor(c, value(*a), value(*b)) ==> divides(c, value(r.0)),
        value(r.0) == value(*a) * r.1@ + value(*b) * r.2@,
        r.1.well_formed(),
        r.2.well_formed(),
{
    let ghost av = value(*a) as int;
    let ghost bv = value(*b) as int;
    let zero = from_u64(0);
    let mut r0 = a.clone();
    let mut r1 = b.clone();
    let mut x0 = Signed::from_magnitude(from_u64(1));
    let mut x1 = Signed::from_magnitude(from_u64(0));
    let mut y0 = Signed::from_magnitude(from_u64(0));
    let mut y1 = Signed::from_magnitude(from_u64(1));
    while !same(&r1, &zero)
        invariant
            av == value(*a),
            bv == value(*b),
            value(zero) == 0,
            x0.well_formed(),
            x1.well_formed(),
            y0.well_formed(),
            y1.well_formed(),
            value(r0) == av * x0@ + bv * y0@,
            value(r1) == av * x1@ + bv * y1@,
            forall|c: nat| #[trigger]
                is_common_divisor(c, value(r0), value(r1)) == is_common_divisor(
                    c,
                    value(*a),
                    value(*b),
                ),
        decreases value(r1),
    {
        let (q, r) = quotient_remainder(&r0, &r1);
        let x2 = x0.sub_mul(&q, &x1);
        let y2 = y0.sub_mul(&q, &y1);
        proof {
            let qv = value(q) as int;
            lemma_fundamental_div_mod(value(r0) as int, value(r1) as int);
            lemma_combination_of_remainder(av, bv, qv, x0@, x1@, y0@, y1@);
            assert(qv * value(r1) == value(r1) * qv) by (nonlinear_arith);
            assert forall|c: nat| #[trigger]
                is_common_divisor(c, value(r1), value(r)) == is_common_divisor(
                    c,
                    value(*a),
                    value(*b),
                ) by {
                lemma_common_divisors_of_remainder(c, value(r0), value(r1));
                assert(is_common_divisor(c, value(r0), value(r1)) == is_common_divisor(
                    c,
                    value(*a),
                    value(*b),
                ));
            }
        }
        r0 = r1;
        r1 = r;
        x0 = x1;
        x1 = x2;
        y0 = y1;
        y1 = y2;
    }
    proof {
        let g = value(r0);
        if g == 0 {
            let c = (av + bv + 1) as nat;
            assert(is_common_divisor(c, g, 0));
            lemma_small_mod(value(*a), c);
            lemma_small_mod(value(*b), c);
        }
        lemma_gcd_from_last_remainder(g, value(*a), value(*b));
    }
    (r0, x0, y0)
}

} // verus!
