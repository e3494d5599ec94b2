use vstd::prelude::*;

verus! {

/// Relies on fastrand::u64 over the full range: draws one random number.
/// Nothing can be promised of a random value.
#[verifier::external_body]
pub fn random_u64() -> u64 {
    fastrand::u64(..)
}

/// Relies on fastrand::shuffle: it only swaps elements of the slice in
/// place, so the same values come back, in some order.
#[verifier::external_body]
pub fn shuffle_indices(v: &mut Vec<usize>)
    ensures
        final(v)@.len() == old(v)@.len(),
        final(v)@.to_multiset() == old(v)@.to_multiset(),
{
    fastrand::shuffle(v.as_mut_slice());
}

} // verus!
