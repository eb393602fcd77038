//! The block protocol behind the synchronizer: what its engine reports is
//! turned into what the synchronizer and the driver expect.

use vstd::prelude::*;
use std::collections::{BTreeSet, VecDeque};
use std::marker::PhantomData;
use crate::consensus::{ConsensusContext, ConsensusProtocolResult, TimerId};
use crate::dep_spec::{BlockIndex, PotholeDepSpec};
use crate::synchronizer::{HandleNewItemResult, ItemWithId, NodeId, SynchronizerMessage};

verus! {

/// A message of the block protocol.
#[derive(Debug)]
pub enum PotholeMessage<B> {
    NewBlock(BlockIndex, B),
}

/// What the engine of the block protocol reports.
#[derive(Debug)]
pub enum PotholeResult<B> {
    /// Fire the timer with this number at the instant, in milliseconds since the epoch.
    ScheduleTimer(u64, u64),
    /// Propose a new block now.
    CreateNewBlock,
    /// The block with this index is final.
    FinalizedBlock(BlockIndex, B),
}

/// The finalized blocks among the engine's reports, in their order.
pub open spec fn finalized_blocks<B>(results: Seq<PotholeResult<B>>) -> Seq<(BlockIndex, B)>
    decreases results.len(),
{
    if results.len() == 0 {
        Seq::empty()
    } else {
        let rest = finalized_blocks(results.drop_last());
        match results.last() {
            PotholeResult::FinalizedBlock(index, block) => rest.push((index, block)),
            _ => rest,
        }
    }
}

/// An engine of the block protocol together with the finalized blocks
/// that it has reported and that nobody has collected yet.
#[derive(Debug)]
pub struct PotholeWrapper<B, P> {
    finalized_block_queue: VecDeque<(BlockIndex, B)>,
    pothole: P,
}

/// The content of a [`PotholeWrapper`].
pub struct PotholeWrapperView<B, P> {
    /// The finalized blocks that wait to be collected, oldest first.
    pub finalized: Seq<(BlockIndex, B)>,
    /// The engine.
    pub pothole: P,
}

impl<B, P> View for PotholeWrapper<B, P> {
    type V = PotholeWrapperView<B, P>;

    closed spec fn view(&self) -> PotholeWrapperView<B, P> {
        PotholeWrapperView { finalized: self.finalized_block_queue@, pothole: self.pothole }
    }
}

impl<B, P> PotholeWrapper<B, P> {
    /// Wraps the engine; no finalized block waits yet.
    pub fn new(pothole: P) -> (r: Self)
        ensures
            r@.finalized == Seq::<(BlockIndex, B)>::empty(),
            r@.pothole == pothole,
    {
        Self { pothole, finalized_block_queue: VecDeque::new() }
    }

    /// Hands out the oldest finalized block that waits to be collected.
    pub fn poll(&mut self) -> (r: Option<(BlockIndex, B)>)
        ensures
            final(self)@.pothole == old(self)@.pothole,
            match r {
                Some(block) => {
                    &&& old(self)@.finalized.len() > 0
                    &&& block == old(self)@.finalized[0]
                    &&& final(self)@.finalized == old(self)@.finalized.drop_first()
                },
                None => old(self)@.finalized.len() == 0 && final(self)@.finalized
                    == old(self)@.finalized,
            },
    {
        let block = self.finalized_block_queue.pop_front();
        proof {
            if old(self)@.finalized.len() > 0 {
                assert(self@.finalized =~= old(self)@.finalized.drop_first());
            }
        }
        block
    }

    /// Returns the engine.
    pub fn pothole(&self) -> (r: &P)
        ensures
            *r == self@.pothole,
    {
        &self.pothole
    }

    /// Returns the engine, to drive it.
    pub fn pothole_mut(&mut self) -> (r: &mut P)
        ensures
            *r == old(self)@.pothole,
            final(self)@.pothole == *final(r),
            final(self)@.finalized == old(self)@.finalized,
    {
        &mut self.pothole
    }

    /// Takes in what the engine reported on a new block.  Where the engine
    /// accepted the block, the blocks that it reports as final join those
    /// that wait to be collected; where it names the blocks that must be
    /// there first, these become the block's outstanding dependencies.
    pub fn handle_new_block_result(
        &mut self,
        result: Result<Vec<PotholeResult<B>>, BTreeSet<BlockIndex>>,
    ) -> (r: HandleNewItemResult<PotholeDepSpec<B>>)
        ensures
            final(self)@.pothole == old(self)@.pothole,
            match result {
                Ok(messages) => {
                    &&& r is Accepted
                    &&& final(self)@.finalized == old(self)@.finalized + finalized_blocks(
                        messages@,
                    )
                },
                Err(deps) => {
                    &&& r matches HandleNewItemResult::DependenciesMissing(spec)
                    &&& spec@.to_request == deps@
                    &&& spec@.requested == Set::<BlockIndex>::empty()
                    &&& final(self)@.finalized == old(self)@.finalized
                },
            },
    {
        match result {
            Ok(messages) => {
                let ghost reported = messages@;
                for message in iter: messages
                    invariant
                        iter.seq() == reported,
                        self@.pothole == old(self)@.pothole,
                        self@.finalized == old(self)@.finalized + finalized_blocks(
                            reported.take(iter.index()),
                        ),
                {
                    proof {
                        let next = reported.take(iter.index() + 1);
                        assert(next.drop_last() == reported.take(iter.index()));
                        assert(next.last() == message);
                    }
                    if let PotholeResult::FinalizedBlock(index, block) = message {
                        self.finalized_block_queue.push_back((index, block));
                    }
                }
                assert(reported.take(reported.len() as int) == reported);
                HandleNewItemResult::Accepted
            },
            Err(deps) => HandleNewItemResult::DependenciesMissing(PotholeDepSpec::new(deps)),
        }
    }
}

impl<B, P> PotholeWrapper<B, P> {
    /// Turns a block that the engine holds under the index `dep` into the
    /// item that answers a peer's request for it.
    pub fn dependency_item(dep: &BlockIndex, block: Option<B>) -> (r: Option<
        ItemWithId<PotholeDepSpec<B>>,
    >)
        ensures
            match block {
                Some(found) => r == Some(ItemWithId::<PotholeDepSpec<B>> { item_id: *dep, item: found }),
                None => r is None,
            },
    {
        match block {
            Some(found) => Some(ItemWithId { item_id: *dep, item: found }),
            None => None,
        }
    }
}

/// The types that the block protocol behind a synchronizer exchanges with
/// its driver: blocks as values, and synchronizer messages with the peer
/// they are for or from.
pub struct PotholeContext<B> {
    _b: PhantomData<B>,
}

impl<B> ConsensusContext for PotholeContext<B> {
    type ConsensusValue = B;

    type Message = (NodeId, SynchronizerMessage<PotholeDepSpec<B>>);
}

/// What the driver is asked to do on a report of the engine: to schedule
/// the timer or to propose a block; nothing on any other report.
pub open spec fn spec_into_consensus_result<B>(pothole_result: PotholeResult<B>) -> Option<
    ConsensusProtocolResult<PotholeContext<B>>,
> {
    match pothole_result {
        PotholeResult::ScheduleTimer(timer_id, instant) => Some(
            ConsensusProtocolResult::ScheduleTimer(instant, TimerId(timer_id)),
        ),
        PotholeResult::CreateNewBlock => Some(ConsensusProtocolResult::CreateNewBlock),
        _ => None,
    }
}

/// Turns a report of the engine into a request to the driver, if it is one.
pub fn into_consenus_result<B>(pothole_result: PotholeResult<B>) -> (r: Option<
    ConsensusProtocolResult<PotholeContext<B>>,
>)
    ensures
        r == spec_into_consensus_result(pothole_result),
{
    match pothole_result {
        PotholeResult::ScheduleTimer(timer_id, instant) => Some(
            ConsensusProtocolResult::ScheduleTimer(instant, TimerId(timer_id)),
        ),
        PotholeResult::CreateNewBlock => Some(ConsensusProtocolResult::CreateNewBlock),
        _ => None,
    }
}

/// The requests to the driver among the engine's reports, in their order.
pub open spec fn spec_timer_results<B>(results: Seq<PotholeResult<B>>) -> Seq<
    ConsensusProtocolResult<PotholeContext<B>>,
>
    decreases results.len(),
{
    if results.len() == 0 {
        Seq::empty()
    } else {
        let rest = spec_timer_results(results.drop_last());
        match spec_into_consensus_result(results.last()) {
            Some(request) => rest.push(request),
            None => rest,
        }
    }
}

/// Turns what the engine said on a timer into the requests to the driver.
pub fn timer_results<B>(results: Vec<PotholeResult<B>>) -> (r: Vec<
    ConsensusProtocolResult<PotholeContext<B>>,
>)
    ensures
        r@ == spec_timer_results(results@),
{
    let ghost reported = results@;
    let mut out: Vec<ConsensusProtocolResult<PotholeContext<B>>> = Vec::new();
    for result in iter: results
        invariant
            iter.seq() == reported,
            out@ == spec_timer_results(reported.take(iter.index())),
    {
        proof {
            let next = reported.take(iter.index() + 1);
            assert(next.drop_last() == reported.take(iter.index()));
            assert(next.last() == result);
        }
        if let Some(request) = into_consenus_result(result) {
            out.push(request);
        }
    }
    assert(reported.take(reported.len() as int) == reported);
    out
}

/// Wraps the messages that the synchronizer wants sent into requests to the driver.
pub fn message_results<B>(messages: Vec<(NodeId, SynchronizerMessage<PotholeDepSpec<B>>)>) -> (r:
    Vec<ConsensusProtocolResult<PotholeContext<B>>>)
    ensures
        r@.len() == messages@.len(),
        forall|i: int|
            0 <= i < r@.len() ==> #[trigger] r@[i] == ConsensusProtocolResult::<
                PotholeContext<B>,
            >::CreatedNewMessage(messages@[i]),
{
    let ghost wanted = messages@;
    let mut out: Vec<ConsensusProtocolResult<PotholeContext<B>>> = Vec::new();
    for message in iter: messages
        invariant
            iter.seq() == wanted,
            out@.len() == iter.index(),
            forall|i: int|
                0 <= i < out@.len() ==> #[trigger] out@[i] == ConsensusProtocolResult::<
                    PotholeContext<B>,
                >::CreatedNewMessage(wanted[i]),
    {
        out.push(ConsensusProtocolResult::CreatedNewMessage(message));
    }
    out
}

} // verus!
