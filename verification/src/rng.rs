//! Trusted declaration of the random-number entry point used by the
//! randomized terrain constructors.

use vstd::prelude::*;

verus! {

/// Relies on `rand::random`: draws one value of `T` from the thread-local
/// generator. Nothing can be promised of a random value, so this declaration
/// has no `ensures`; callers state only what holds of every outcome.
pub assume_specification<T>[ rand::random::<T> ]() -> (r: T)
    where
        rand::distributions::Standard: rand::distributions::Distribution<T>,
;

} // verus!
