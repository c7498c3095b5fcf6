//! The random source shared by the games, and the few draws they make from it.
use rand::rngs::StdRng;
use rand::seq::SliceRandom;
use rand::Rng;
use vstd::prelude::*;

verus! {

/// The seedable generator from `rand` that every game draws from.
#[verifier::external_type_specification]
#[verifier::external_body]
pub struct ExStdRng(StdRng);

/// Calls `Rng::gen_range(0..bound)` from `rand`.
/// Trusted: the result lies in `0..bound`; `rand` panics on an empty range,
/// so `bound` must be positive. Which value comes back depends on the
/// generator's state and is not stated.
#[verifier::external_body]
pub(crate) fn below(rng: &mut StdRng, bound: usize) -> (r: usize)
    requires
        bound > 0,
    ensures
        r < bound,
{
    rng.gen_range(0..bound)
}

/// Calls `Rng::gen_ratio(numerator, denominator)` from `rand`.
/// Trusted: `rand` documents that the result is always `false` for a zero
/// numerator and always `true` when the two are equal; it panics for a zero
/// denominator or a numerator above the denominator. Otherwise the value
/// depends on the generator's state and is not stated.
#[verifier::external_body]
pub(crate) fn chance(rng: &mut StdRng, numerator: u32, denominator: u32) -> (r: bool)
    requires
        0 < denominator,
        numerator <= denominator,
    ensures
        numerator == 0 ==> !r,
        numerator == denominator ==> r,
{
    rng.gen_ratio(numerator, denominator)
}

/// Calls `SliceRandom::shuffle` from `rand` on the vector's elements.
/// Trusted: the source only swaps elements, so the result is a permutation
/// of the input (same length, same multiset). Which permutation depends on
/// the generator's state and is not stated.
#[verifier::external_body]
pub(crate) fn shuffle(items: &mut Vec<usize>, rng: &mut StdRng)
    ensures
        final(items)@.len() == old(items)@.len(),
        final(items)@.to_multiset() == old(items)@.to_multiset(),
{
    items.shuffle(rng)
}

} // verus!
