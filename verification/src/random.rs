use rand::seq::SliceRandom;
use vstd::prelude::*;

verus! {

/// Puts the items in a random order with `rand::seq::SliceRandom::shuffle`,
/// driven by the thread-local generator of `rand::rng()`.
///
/// The shuffle only swaps items (a Fisher-Yates pass), so the contract claims
/// that the result holds the same items as before, each as often: the same
/// multiset. Which order comes out depends on the generator and is left
/// unsaid. `rand::rng()` panics when the operating system's random source
/// cannot seed the generator; nothing here rules that out.
#[verifier::external_body]
pub(crate) fn shuffle<T>(items: &mut Vec<T>)
    ensures
        final(items)@.to_multiset() == old(items)@.to_multiset(),
{
    items.shuffle(&mut rand::rng());
}

} // verus!
