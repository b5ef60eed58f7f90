//! Fermat's little theorem, proved by rearranging a product: multiplying the
//! numbers from one to below a prime by a number that the prime does not
//! divide only reorders their residues.

use vstd::prelude::*;
use vstd::arithmetic::power::{pow, lemma_pow_positive};
use vstd::arithmetic::div_mod::{lemma_mul_mod_noop_general, lemma_small_mod};
use vstd::set_lib::{lemma_int_range, lemma_len_subset, set_int_range};
use crate::primes::{
    factorial, is_prime, lemma_cancel_modulo_prime, lemma_factorial_below_prime,
    lemma_residue_product_is_not_zero,
};

verus! {

/// The product of the members of a sequence.
spec fn product_of(s: Seq<int>) -> int
    decreases s.len(),
{
    if s.len() == 0 {
        1
    } else {
        product_of(s.drop_last()) * s.last()
    }
}

/// The sequence holds each number from one to its length exactly once.
spec fn is_arrangement(s: Seq<int>) -> bool {
    &&& s.no_duplicates()
    &&& forall|i: int| 0 <= i < s.len() ==> 1 <= #[trigger] s[i] <= s.len()
}

/// The first `n` positive multiples of `a`.
spec fn multiples(a: nat, n: nat) -> Seq<int> {
    Seq::new(n, |i: int| (i + 1) * a)
}

/// The residues modulo `p` of the first `n` positive multiples of `a`.
spec fn residues(a: nat, p: nat, n: nat) -> Seq<int> {
    Seq::new(n, |i: int| ((i + 1) * a) % (p as int))
}

/// Taking one member out of a sequence divides its product by that member.
proof fn lemma_product_without(s: Seq<int>, j: int)
    requires
        0 <= j < s.len(),
    ensures
        product_of(s) == product_of(s.remove(j)) * s[j],
    decreases s.len(),
{
    if j == s.len() - 1 {
        assert(s.remove(j) =~= s.drop_last());
    } else {
        let front = s.drop_last();
        lemma_product_without(front, j);
        assert(s.remove(j).drop_last() =~= front.remove(j));
        let rest = product_of(front.remove(j));
        assert((rest * s[j]) * s.last() == (rest * s.last()) * s[j]) by (nonlinear_arith);
    }
}

/// An arrangement of the numbers from one to `n` holds `n` somewhere.
proof fn lemma_arrangement_holds_greatest(s: Seq<int>) -> (j: int)
    requires
        is_arrangement(s),
        s.len() >= 1,
    ensures
        0 <= j < s.len(),
        s[j] == s.len(),
{
    let n = s.len() as int;
    if forall|i: int| 0 <= i < s.len() ==> s[i] != n {
        let below = set_int_range(1, n);
        lemma_int_range(1, n);
        s.unique_seq_to_set();
        assert forall|a: int| s.to_set().contains(a) implies below.contains(a) by {
            let i = choose|i: int| 0 <= i < s.len() && s[i] == a;
            assert(1 <= s[i] < n);
        }
        lemma_len_subset(s.to_set(), below);
        assert(false);
    }
    choose|i: int| 0 <= i < s.len() && s[i] == n
}

/// The product of an arrangement of the numbers from one to `n` is the
/// factorial of `n`, whatever the order.
proof fn lemma_arrangement_product(s: Seq<int>)
    requires
        is_arrangement(s),
    ensures
        product_of(s) == factorial(s.len()),
    decreases s.len(),
{
    if s.len() > 0 {
        let n = s.len();
        let j = lemma_arrangement_holds_greatest(s);
        let t = s.remove(j);
        assert forall|i: int| 0 <= i < t.len() implies 1 <= #[trigger] t[i] <= t.len() by {
            let si = if i < j { i } else { i + 1 };
            assert(t[i] == s[si] && s[si] != s[j]);
        }
        assert forall|i: int, k: int|
            0 <= i < t.len() && 0 <= k < t.len() && i != k implies t[i] != t[k] by {
            let si = if i < j { i } else { i + 1 };
            let sk = if k < j { k } else { k + 1 };
            assert(t[i] == s[si] && t[k] == s[sk]);
        }
        lemma_arrangement_product(t);
        lemma_product_without(s, j);
        assert(product_of(t) * (n as int) == n * factorial((n - 1) as nat)) by (nonlinear_arith)
            requires
                product_of(t) == factorial((n - 1) as nat),
        ;
    }
}

/// The product of the first `n` multiples of `a` is `a^n * n!`.
proof fn lemma_product_of_multiples(a: nat, n: nat)
    ensures
        product_of(multiples(a, n)) == pow(a as int, n) * factorial(n),
    decreases n,
{
    reveal(pow);
    if n == 0 {
        assert(pow(a as int, 0) * factorial(0) == 1) by (nonlinear_arith)
            requires
                pow(a as int, 0) == 1,
                factorial(0) == 1,
        ;
    } else {
        let m = (n - 1) as nat;
        lemma_product_of_multiples(a, m);
        assert(multiples(a, n).drop_last() =~= multiples(a, m));
        let pw = pow(a as int, m);
        let f = factorial(m) as int;
        assert(pow(a as int, n) == a * pw);
        assert((pw * f) * (n * a) == (a * pw) * (n * f)) by (nonlinear_arith);
    }
}

/// Reducing each multiple modulo `p` does not change the residue of the
/// product.
proof fn lemma_product_of_residues(a: nat, p: nat, n: nat)
    requires
        p > 0,
    ensures
        product_of(residues(a, p, n)) % (p as int) == product_of(multiples(a, n)) % (p as int),
    decreases n,
{
    if n > 0 {
        let m = (n - 1) as nat;
        let pi = p as int;
        lemma_product_of_residues(a, p, m);
        assert(multiples(a, n).drop_last() =~= multiples(a, m));
        assert(residues(a, p, n).drop_last() =~= residues(a, p, m));
        let last = multiples(a, n).last();
        let x = product_of(residues(a, p, m));
        let y = product_of(multiples(a, m));
        lemma_mul_mod_noop_general(x, last, pi);
        lemma_mul_mod_noop_general(y, last, pi);
    }
}

/// Modulo a prime `p`, the multiples of a number that `p` does not divide,
/// from the first to the one before the `p`-th, leave each of the residues
/// from one to `p - 1` exactly once.
proof fn lemma_residues_are_arrangement(a: nat, p: nat)
    requires
        is_prime(p),
        a % p != 0,
    ensures
        is_arrangement(residues(a, p, (p - 1) as nat)),
{
    let n = (p - 1) as nat;
    let s = residues(a, p, n);
    assert forall|i: int| 0 <= i < s.len() implies 1 <= #[trigger] s[i] <= s.len() by {
        let k = (i + 1) as nat;
        lemma_small_mod(k, p);
        lemma_residue_product_is_not_zero(p, k, a);
        assert(s[i] == (k * a) % p);
    }
    assert forall|i: int, j: int|
        0 <= i < s.len() && 0 <= j < s.len() && i != j implies s[i] != s[j] by {
        let k = (i + 1) as nat;
        let l = (j + 1) as nat;
        if s[i] == s[j] {
            lemma_cancel_modulo_prime(p, a, k, l);
            lemma_small_mod(k, p);
            lemma_small_mod(l, p);
        }
    }
}

/// Fermat's little theorem: a number that a prime `p` does not divide,
/// raised to the power `p - 1`, leaves the residue one modulo `p`.
pub proof fn lemma_fermat_little(p: nat, a: nat)
    requires
        is_prime(p),
        a % p != 0,
    ensures
        pow(a as int, (p - 1) as nat) % (p as int) == 1,
{
    let n = (p - 1) as nat;
    let f = factorial(n);
    lemma_residues_are_arrangement(a, p);
    lemma_arrangement_product(residues(a, p, n));
    lemma_product_of_residues(a, p, n);
    lemma_product_of_multiples(a, n);
    lemma_factorial_below_prime(p, n);
    if a == 0 {
        lemma_small_mod(0, p);
    }
    lemma_pow_positive(a as int, n);
    let w = pow(a as int, n) as nat;
    assert(f * w == pow(a as int, n) * f) by (nonlinear_arith)
        requires
            w == pow(a as int, n),
    ;
    lemma_cancel_modulo_prime(p, f, 1, w);
    lemma_small_mod(1, p);
}

} // verus!
