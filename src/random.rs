//! The random choices the library makes, drawn from rand's standard generator.
use vstd::prelude::*;
use rand::rngs::StdRng;
use rand::seq::SliceRandom;
use rand::Rng;

verus! {

#[verifier::external_type_specification]
#[verifier::external_body]
pub struct ExStdRng(StdRng);

/// Relies on rand's `Rng::gen_range`: on a non-empty range `0..n` it returns
/// a value inside the range.
#[verifier::external_body]
pub(crate) fn random_below(rng: &mut StdRng, n: usize) -> (r: usize)
    requires
        n > 0,
    ensures
        r < n,
{
    rng.gen_range(0..n)
}

/// Relies on rand's `SliceRandom::shuffle`: it only swaps items, so the
/// result holds the same items in some order.
#[verifier::external_body]
pub(crate) fn shuffle(rng: &mut StdRng, v: &mut Vec<usize>)
    ensures
        final(v)@.to_multiset() == old(v)@.to_multiset(),
{
    v.shuffle(rng)
}

/// The four directions, north, east, south, west, in a random order.
pub fn direction_order(rng: &mut StdRng) -> (order: Vec<usize>)
    ensures
        order@.to_multiset() == seq![0usize, 1, 2, 3].to_multiset(),
{
    let mut order: Vec<usize> = vec![0, 1, 2, 3];
    shuffle(rng, &mut order);
    order
}

} // verus!
