//! Randomness, as thin wrappers: nothing is promised of a random value
//! beyond what holds of every outcome.

use vstd::prelude::*;
use rand::seq::SliceRandom;

verus! {

/// Relies on rand::random: an arbitrary 32-bit value; nothing is promised
/// of it.
#[verifier::external_body]
pub(crate) fn random_u32() -> u32 {
    rand::random::<u32>()
}

/// Relies on rand::random: an arbitrary 8-bit channel value, covering the
/// whole channel space; nothing is promised of it.
#[verifier::external_body]
pub(crate) fn random_channel() -> u8 {
    rand::random::<u8>()
}

/// Relies on rand::random_range: a draw from `0..n`, which panics only on an
/// empty range, left out here by `requires`.
#[verifier::external_body]
pub(crate) fn random_below(n: usize) -> (r: usize)
    requires
        n > 0,
    ensures
        r < n,
{
    rand::random_range(0..n)
}

/// Relies on rand::seq::SliceRandom::shuffle: permutes the slice in place,
/// so the multiset of elements is unchanged.
#[verifier::external_body]
pub(crate) fn shuffle_coords(v: &mut Vec<(usize, usize)>)
    ensures
        final(v)@.to_multiset() == old(v)@.to_multiset(),
        final(v)@.len() == old(v)@.len(),
{
    v.as_mut_slice().shuffle(&mut rand::rng());
}

} // verus!
