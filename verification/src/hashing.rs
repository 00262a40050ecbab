//! The hash functions that give terms and triples their identifiers.

use crate::triples::CompressedTriple;
use std::hash::{BuildHasher, BuildHasherDefault};
use vstd::prelude::*;

verus! {

/// The identifier of the term with the given bytes: the 64-bit hash that
/// `ahash::AHasher` computes of the bytes as a slice.
///
/// The crate is built without its sources of random keys, so the hasher
/// starts from the crate's constants. Which of its algorithms the crate uses
/// is settled when the library is compiled, and nothing is looked up when it
/// runs: the same bytes have the same hash in every run.
pub uninterp spec fn term_hash(term: Seq<u8>) -> u64;

/// The hash of a compressed triple: what `ahash::AHasher` computes, from the
/// same constants, of the array of the three identifiers.
pub uninterp spec fn triple_hash(subject: u64, predicate: u64, object: u64) -> u64;

/// `BuildHasherDefault::<ahash::AHasher>::hash_one` on a byte slice: a fresh
/// hasher is fed the slice and finished. The result depends on the bytes alone.
#[verifier::external_body]
pub(crate) fn hash_term(term: &[u8]) -> (id: u64)
    ensures
        id == term_hash(term@),
{
    BuildHasherDefault::<ahash::AHasher>::default().hash_one(term)
}

/// `BuildHasherDefault::<ahash::AHasher>::hash_one` on an array of three
/// identifiers: a fresh hasher is fed the array and finished. The result
/// depends on the three identifiers alone.
#[verifier::external_body]
pub(crate) fn hash_triple(triple: CompressedTriple) -> (hash: u64)
    ensures
        hash == triple_hash(triple[0], triple[1], triple[2]),
{
    BuildHasherDefault::<ahash::AHasher>::default().hash_one(triple)
}

} // verus!
