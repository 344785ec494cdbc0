use rand::seq::SliceRandom;
use rand::Rng;
use vstd::prelude::*;

verus! {

/// Calls `rand::Rng::random_range(0..n)` on the thread-local generator `rand::rng()`.
/// Claimed: the index drawn is below `n`. rand asserts that the range is not empty, so
/// `n` must be positive. Which index comes out is left open.
#[verifier::external_body]
pub(crate) fn random_index(n: usize) -> (r: usize)
    requires
        n > 0,
    ensures
        r < n,
{
    rand::rng().random_range(0..n)
}

/// Calls `rand::Rng::random_ratio(numerator, denominator)` on `rand::rng()`: `true` with
/// chance `numerator / denominator`. Claimed, as rand documents: never `true` when the
/// numerator is 0, always `true` when it equals the denominator. rand panics when the
/// denominator is 0 or below the numerator. Otherwise the outcome is left open.
#[verifier::external_body]
pub(crate) fn random_ratio(numerator: u32, denominator: u32) -> (r: bool)
    requires
        0 < denominator,
        numerator <= denominator,
    ensures
        numerator == 0 ==> !r,
        numerator == denominator ==> r,
{
    rand::rng().random_ratio(numerator, denominator)
}

/// Calls `rand::seq::SliceRandom::shuffle` on the vector's slice with `rand::rng()`.
/// Claimed: the vector afterwards holds the same items, each as often as before (rand
/// only swaps items). The order that comes out is left open.
#[verifier::external_body]
pub(crate) fn shuffle<T>(v: &mut Vec<T>)
    ensures
        final(v)@.to_multiset() == old(v)@.to_multiset(),
{
    v.as_mut_slice().shuffle(&mut rand::rng());
}

} // verus!
