use vstd::prelude::*;
use crate::hex::Hex;
use rand::Rng;
use rand::seq::SliceRandom;

verus! {

/// Calls `rand::Rng::random_range(0..n)` on the thread's generator: a
/// uniformly drawn number below `n`. rand panics on an empty range.
#[verifier::external_body]
pub(crate) fn random_index(n: usize) -> (r: usize)
    requires
        n > 0,
    ensures
        r < n,
{
    rand::rng().random_range(0..n)
}

/// Calls `rand::Rng::random::<u32>()` on the thread's generator: any `u32`.
#[verifier::external_body]
pub(crate) fn random_u32() -> (r: u32) {
    rand::rng().random::<u32>()
}

/// Calls `rand::seq::SliceRandom::shuffle` on the thread's generator, which
/// only swaps elements: the result holds the same hexes in a random order.
#[verifier::external_body]
pub(crate) fn shuffle_hexes(a: [Hex; 6]) -> (r: [Hex; 6])
    ensures
        r@.to_multiset() == a@.to_multiset(),
{
    let mut v = a;
    v.shuffle(&mut rand::rng());
    v
}

} // verus!
