//! The random choices that the generators and the writer make.
//!
//! What comes back from these calls differs from run to run, so each contract
//! says only what holds of every outcome.

use crate::sparql::QuerySlot;
use rand::rngs::StdRng;
use rand::seq::SliceRandom;
use rand::{Rng, SeedableRng};
use vstd::prelude::*;

verus! {

/// `rand::rngs::StdRng`: the random number generator that a generator of
/// triples owns.
#[verifier::external_type_specification]
#[verifier::external_body]
pub struct ExStdRng(StdRng);

/// The indices are distinct and lie below `length`.
pub open spec fn distinct_below(indices: Seq<usize>, length: nat) -> bool {
    &&& forall|i: int| 0 <= i < indices.len() ==> indices[i] < length
    &&& indices.no_duplicates()
}

/// `StdRng::from_entropy`: a generator seeded by the operating system.
#[verifier::external_body]
pub(crate) fn entropy_rng() -> StdRng {
    StdRng::from_entropy()
}

/// `rand::seq::index::sample`: exactly `amount` distinct indices below
/// `length`, in some order. The call panics where more indices are asked for
/// than there are.
#[verifier::external_body]
pub(crate) fn sample_indices(rng: &mut StdRng, length: usize, amount: usize) -> (indices: Vec<
    usize,
>)
    requires
        amount <= length,
    ensures
        indices@.len() == amount,
        distinct_below(indices@, length as nat),
{
    rand::seq::index::sample(rng, length, amount).into_vec()
}

/// `Rng::gen_range` of the thread's generator on the range from 0 up to, not
/// including, `bound`. The call panics on an empty range.
#[verifier::external_body]
pub(crate) fn random_below(bound: usize) -> (r: usize)
    requires
        bound > 0,
    ensures
        r < bound,
{
    rand::thread_rng().gen_range(0..bound)
}

/// `SliceRandom::shuffle` with the thread's generator: the slots change
/// places, none is added or lost.
#[verifier::external_body]
pub(crate) fn shuffle_slots(slots: &mut Vec<QuerySlot>)
    ensures
        final(slots)@.to_multiset() == old(slots)@.to_multiset(),
{
    slots.shuffle(&mut rand::thread_rng());
}

} // verus!
