//! Number-theoretic primitives over arbitrary-precision natural numbers, as
//! public-key cryptography needs them: modular exponentiation, the
//! Miller-Rabin primality test, the search for the next prime, and the
//! extended Euclidean algorithm.
//!
//! The numbers are the `BigUint`s of `num`. Every function states what it
//! computes over the natural number that a `BigUint` holds, and the
//! statements are machine-checked, up to the arithmetic of `num` itself,
//! which is taken on trust in [`bignum`].
//!
//! The primality test is probabilistic. What is proved of it is what holds
//! whatever witnesses are drawn: it never rejects a prime, so a rejection is
//! final, and the search for the next prime ends and passes over no odd
//! prime.
//!
//! - [`num_ext`]: the operations as methods on `BigUint`.
//! - [`modexp`]: modular exponentiation.
//! - [`miller_rabin`], [`primality`], [`search`]: the primality test and the
//!   prime search.
//! - [`gcdext`]: the extended Euclidean algorithm.
//! - [`primes`], [`fermat`], [`witness`]: the definitions that the contracts
//!   are stated over, and the theorems behind them.

pub mod bignum;
pub mod fermat;
pub mod gcdext;
pub mod miller_rabin;
pub mod modexp;
pub mod num_ext;
pub mod primality;
pub mod primes;
pub mod search;
pub mod witness;
