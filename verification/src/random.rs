//! Thin trusted wrappers around the process-wide random number generator.
//! Everything else in the crate takes the values these return as given and is
//! verified for every outcome they allow.

use rand::seq::SliceRandom;
use vstd::prelude::*;

verus! {

/// Relies on rand::random_range over `lo..=hi`: returns a uniformly chosen
/// value of the non-empty inclusive range (it panics only on an empty range,
/// which the precondition rules out).
#[verifier::external_body]
pub(crate) fn random_in_range(lo: u8, hi: u8) -> (r: u8)
    requires
        lo <= hi,
    ensures
        lo <= r <= hi,
{
    rand::random_range(lo..=hi)
}

/// Relies on rand's SliceRandom::shuffle: permutes the slice in place, so the
/// elements afterwards are exactly the elements before, reordered.
#[verifier::external_body]
pub(crate) fn shuffle_vec<T>(v: &mut Vec<T>)
    ensures
        final(v)@.len() == old(v)@.len(),
        final(v)@.to_multiset() == old(v)@.to_multiset(),
{
    let mut rng = rand::rng();
    v.shuffle(&mut rng);
}

} // verus!
