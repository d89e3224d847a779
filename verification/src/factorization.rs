//! Traits for prime enumeration and primality testing, for number types to implement.
use vstd::prelude::*;

verus! {

/// Enumerating primes of a number type.
pub trait Primes: Sized {
    type I: Iterator<Item = Self>;

    type LI: Iterator<Item = Self>;

    /// The primes less than `n`.
    fn primes_less_than(n: &Self) -> Self::LI;

    /// The primes less than or equal to `n`.
    fn primes_less_than_or_equal_to(n: &Self) -> Self::LI;

    /// All primes.
    fn primes() -> Self::I;
}

/// Primality testing.
pub trait IsPrime {
    /// Whether the value is prime.
    fn is_prime(&self) -> bool;
}

} // verus!
