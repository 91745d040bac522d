//! Primality queries over `u128`: an odd-only Sieve of Eratosthenes that grows
//! on demand, trial division by the sieved primes, and searches for the
//! neighbouring primes of a number.

pub mod arith;
pub mod bits;
pub mod engine;
pub mod index;
pub mod parse;
mod sieve;

pub use engine::{BigPrime, PrimeCalc, PrimeCalcExtended};
