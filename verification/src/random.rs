//! Chance, as the game takes it from the thread's random number generator.
//!
//! None of this is proved: what a call returns is up to the generator. Each
//! function states what the generator's documentation promises of every
//! outcome, and no more.

use vstd::prelude::*;
use rand::seq::IteratorRandom;

verus! {

/// Calls `rand::random::<u32>`, which returns a number that the thread's
/// generator makes up. Any number may come, so nothing is claimed of it.
#[verifier::external_body]
pub(crate) fn any_number() -> (number: u32) {
    rand::random::<u32>()
}

/// Calls `rand::random_range` with the range from `low` to `high`, both
/// included, which returns a number in that range, and panics where the range
/// is empty. Which number of the range comes is not claimed.
#[verifier::external_body]
pub(crate) fn number_between(low: u32, high: u32) -> (number: u32)
    requires
        low <= high,
    ensures
        low <= number <= high,
{
    rand::random_range(low..=high)
}

/// Calls `rand::seq::IteratorRandom::choose` on the indices below `count`,
/// which returns one of them, or nothing if and only if there is none. Which
/// index comes is not claimed.
#[verifier::external_body]
pub(crate) fn index_below(count: usize) -> (index: Option<usize>)
    ensures
        match index {
            Some(index) => index < count,
            None => count == 0,
        },
{
    (0..count).choose(&mut rand::rng())
}

} // verus!
