//! What the embedder supplies to a protocol instance.

use vstd::prelude::*;
use std::collections::hash_map::DefaultHasher;
use std::hash::Hasher;

verus! {

/// The capabilities an embedder supplies to a protocol instance.
///
/// Vote and block identifiers are the digests that `hash` assigns to the
/// canonical bytes of a wire vote.
pub trait Context {
    /// The digest as a mathematical function of the bytes.  An implementation
    /// names its own function here; the default leaves it unspecified.
    open spec fn spec_hash(data: Seq<u8>) -> u64 {
        arbitrary()
    }

    /// Hashes a byte string.  Must be deterministic: equal bytes give equal
    /// digests, in every call.
    fn hash(data: &[u8]) -> (h: u64)
        ensures
            h == Self::spec_hash(data@),
    ;
}

/// A context for tests and tools: it hashes with the standard library's
/// default hasher, freshly made for every digest.
#[derive(Clone, Copy, Debug, PartialEq, Eq)]
pub struct StdContext;

impl Context for StdContext {
    open spec fn spec_hash(data: Seq<u8>) -> u64 {
        <DefaultHasher as vstd::std_specs::hash::DefaultHasherAdditionalSpecFns>::spec_finish(
            seq![data],
        )
    }

    fn hash(data: &[u8]) -> (h: u64) {
        let mut hasher = DefaultHasher::new();
        hasher.write(data);
        assert(hasher@ =~= seq![data@]);
        hasher.finish()
    }
}

} // verus!
