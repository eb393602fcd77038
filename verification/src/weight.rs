//! Voting weights.

use vstd::prelude::*;
use vstd::std_specs::ops::{AddSpecImpl, MulSpecImpl, SubSpecImpl};

verus! {

/// A vote weight.  Zero is a weight like any other.
#[derive(Clone, Copy, Debug, PartialEq, Eq, Structural, PartialOrd, Ord, Hash, Default)]
pub struct Weight(pub u64);

impl core::ops::Add for Weight {
    type Output = Weight;

    /// The sum of two weights, which must fit in 64 bits.
    fn add(self, rhs: Weight) -> (r: Weight) {
        Weight(self.0 + rhs.0)
    }
}

impl AddSpecImpl for Weight {
    open spec fn obeys_add_spec() -> bool {
        true
    }

    open spec fn add_req(self, rhs: Weight) -> bool {
        self.0 + rhs.0 <= u64::MAX
    }

    open spec fn add_spec(self, rhs: Weight) -> Weight {
        Weight((self.0 + rhs.0) as u64)
    }
}

impl core::ops::Sub for Weight {
    type Output = Weight;

    /// The difference of two weights, of which the second must not be the greater.
    fn sub(self, rhs: Weight) -> (r: Weight) {
        Weight(self.0 - rhs.0)
    }
}

impl SubSpecImpl for Weight {
    open spec fn obeys_sub_spec() -> bool {
        true
    }

    open spec fn sub_req(self, rhs: Weight) -> bool {
        self.0 >= rhs.0
    }

    open spec fn sub_spec(self, rhs: Weight) -> Weight {
        Weight((self.0 - rhs.0) as u64)
    }
}

impl core::ops::Mul<u64> for Weight {
    type Output = Weight;

    /// The weight taken `rhs` times, which must fit in 64 bits.
    fn mul(self, rhs: u64) -> (r: Weight) {
        Weight(self.0 * rhs)
    }
}

impl MulSpecImpl<u64> for Weight {
    open spec fn obeys_mul_spec() -> bool {
        true
    }

    open spec fn mul_req(self, rhs: u64) -> bool {
        self.0 * rhs <= u64::MAX
    }

    open spec fn mul_spec(self, rhs: u64) -> Weight {
        Weight((self.0 * rhs) as u64)
    }
}

} // verus!
