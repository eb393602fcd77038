//! Validator indices.

use vstd::prelude::*;

verus! {

/// The index of a validator in the weighted registry of a protocol state.
#[derive(Clone, Copy, Debug, PartialEq, Eq, Structural, PartialOrd, Ord, Hash)]
pub struct ValidatorIndex(pub u32);

} // verus!
