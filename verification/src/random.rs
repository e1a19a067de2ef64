//! The random choices of the search, drawn from the thread's generator.

use rand::seq::SliceRandom;
use vstd::prelude::*;

verus! {

/// Reorders `items` at random. This is `rand::seq::SliceRandom::shuffle` with
/// `rand::thread_rng()`: it only swaps elements, so the same items are there
/// afterwards, each as often as before. Nothing is claimed of their order.
#[verifier::external_body]
pub(crate) fn shuffle<T>(items: &mut Vec<T>)
    ensures
        final(items)@.to_multiset() == old(items)@.to_multiset(),
{
    items.shuffle(&mut rand::thread_rng());
}

/// A random machine word, `rand::random::<usize>()`. Nothing is claimed of it.
#[verifier::external_body]
pub(crate) fn random_index() -> (r: usize)
{
    rand::random::<usize>()
}

} // verus!
