//! Fuzzy deduplication of text records with MinHash signatures and a banded
//! locality-sensitive index.
use vstd::prelude::*;

pub mod minhash;
pub mod lsh;
pub mod dedup;

verus! {

} // verus!
