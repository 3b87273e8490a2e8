//! A precomputed integer-factorization engine.
//!
//! Given an inclusive upper bound `n`, [`PrimeFactorSieve::new`] builds a
//! table of smallest prime factors, after which primality tests, prime-factor
//! decompositions, divisor enumeration and coprimality tests for any value in
//! range are answered from the table alone.

pub mod divisibility;
pub mod divisors;
pub mod factorization;
pub mod sieve;

pub use sieve::PrimeFactorSieve;
