//! The simulation's only source of randomness, kept behind one trusted
//! declaration so that everything that consumes a random value is verified
//! for every outcome.

use vstd::prelude::*;

verus! {

/// Relies on rand::random: a value drawn from the thread-local generator.
/// Nothing can be promised of a random value, so nothing is.
pub assume_specification<T>[ rand::random::<T> ]() -> (r: T)
    where
        rand::distributions::Standard: rand::distributions::Distribution<T>,
;

/// A pseudo-random number below `n`; whatever the generator returns, the
/// remainder is in range.
pub fn random_below(n: usize) -> (r: usize)
    requires
        n >= 1,
    ensures
        r < n,
{
    let raw: usize = rand::random();
    raw % n
}

} // verus!
