//! What a consensus protocol hands to the driver that runs it.

use vstd::prelude::*;

verus! {

/// Identifies a timer that the driver fires on behalf of the protocol.
#[derive(Clone, Copy, Debug, PartialEq, Eq, Structural)]
pub struct TimerId(pub u64);

/// The types that a consensus protocol and its driver exchange.
pub trait ConsensusContext {
    /// What the protocol agrees on.
    type ConsensusValue;

    /// A message to or from a peer, with the peer it is for or from.
    type Message;
}

/// A request of the protocol to its driver.
pub enum ConsensusProtocolResult<C: ConsensusContext> {
    /// Fire the timer at the instant, given in milliseconds since the epoch, or later.
    ScheduleTimer(u64, TimerId),
    /// Propose a new block now.
    CreateNewBlock,
    /// Send the message.
    CreatedNewMessage(C::Message),
    /// The block with this index is final.
    FinalizedBlock(u64, C::ConsensusValue),
}

} // verus!
