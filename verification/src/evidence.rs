//! Evidence against faulty validators.

use vstd::prelude::*;
use crate::validators::ValidatorIndex;
use crate::vertex::{SignedWireVote, SignedWireVoteView};

verus! {

/// The mathematical content of an [`Evidence`].
pub enum EvidenceView {
    Equivocation(SignedWireVoteView, SignedWireVoteView),
}

impl EvidenceView {
    /// The validator the evidence is against.
    pub open spec fn perpetrator(self) -> ValidatorIndex {
        match self {
            EvidenceView::Equivocation(vote0, _) => vote0.wire_vote.sender,
        }
    }
}

/// Evidence that a validator is malicious.
#[derive(Debug, PartialEq, Eq)]
pub enum Evidence {
    /// The validator produced two votes with the same sequence number.
    Equivocation(SignedWireVote, SignedWireVote),
}

impl View for Evidence {
    type V = EvidenceView;

    open spec fn view(&self) -> EvidenceView {
        match self {
            Evidence::Equivocation(vote0, vote1) => EvidenceView::Equivocation(vote0@, vote1@),
        }
    }
}

impl Clone for Evidence {
    fn clone(&self) -> (r: Self)
        ensures
            r@ == self@,
    {
        match self {
            Evidence::Equivocation(vote0, vote1) => Evidence::Equivocation(
                vote0.clone(),
                vote1.clone(),
            ),
        }
    }
}

impl Evidence {
    /// Returns the index of the validator the evidence is against.
    pub fn perpetrator(&self) -> (r: ValidatorIndex)
        ensures
            r == self@.perpetrator(),
    {
        match self {
            Evidence::Equivocation(vote0, _) => vote0.wire_vote.sender,
        }
    }
}

} // verus!
