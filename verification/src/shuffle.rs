//! Random order for the array, from the `rand` crate.
use rand::seq::SliceRandom;
use vstd::prelude::*;

verus! {

/// Puts the elements of `arr` in a random order.
///
/// The body calls `rand::seq::SliceRandom::shuffle` on the slice, with the
/// generator that `rand::thread_rng` hands out. The contract is taken on
/// trust from the source of `rand`, where the shuffle walks the slice from
/// its last index down and does nothing but swap the element at the index
/// with one at a random index not above it: the array keeps its elements.
/// Which order comes out is left open.
#[verifier::external_body]
pub fn shuffle_vec(arr: &mut Vec<isize>)
    ensures
        final(arr)@.to_multiset() == old(arr)@.to_multiset(),
{
    let mut rng = rand::thread_rng();
    arr.shuffle(&mut rng);
}

} // verus!
