//! The mathematical model of a protocol state: what the stores hold, how
//! votes and blocks are linked, and which states are well formed.

use vstd::prelude::*;
use crate::block::BlockView;
use crate::evidence::EvidenceView;
use crate::weight::Weight;
use crate::state::VoteError;
use crate::validators::ValidatorIndex;
use crate::vertex::{Dependency, SignedWireVoteView, WireVoteView};
use crate::vote::{Observation, VoteView};

verus! {

/// The number of entries in the skip index of a vote with sequence number
/// `n`, or of a block of height `n`: one for every power of two that
/// divides `n`, none for `n == 0`.
pub open spec fn skip_len(n: nat) -> nat
    decreases n,
{
    if n == 0 {
        0
    } else if n % 2 == 1 {
        1
    } else {
        1 + skip_len(n / 2)
    }
}

/// The content of a protocol state.
pub struct StateView {
    /// The validators' voting weights, by validator index.
    pub weights: Seq<Weight>,
    /// All votes, by hash.
    pub votes: Map<u64, VoteView>,
    /// All blocks, by the hash of the vote that introduced them.
    pub blocks: Map<u64, BlockView>,
    /// The evidence against faulty validators.
    pub evidence: Map<ValidatorIndex, EvidenceView>,
    /// The latest observation of every validator.
    pub panorama: Seq<Observation>,
}

impl StateView {
    /// The vote `n` steps back in the swimlane of the vote `hash`.
    pub open spec fn nth_previous(self, hash: u64, n: nat) -> u64
        decreases n,
    {
        if n == 0 {
            hash
        } else {
            self.nth_previous(self.votes[hash].skip_idx[0], (n - 1) as nat)
        }
    }

    /// The ancestor `n` generations above the block `hash`.
    pub open spec fn nth_parent(self, hash: u64, n: nat) -> u64
        decreases n,
    {
        if n == 0 {
            hash
        } else {
            self.nth_parent(self.blocks[hash].skip_idx[0], (n - 1) as nat)
        }
    }

    /// The vote with sequence number `seq_number` in the swimlane of the vote
    /// `hash`, for a sequence number that is not higher than that of `hash`.
    pub open spec fn find_in_swimlane(self, hash: u64, seq_number: u64) -> u64 {
        self.nth_previous(hash, (self.votes[hash].seq_number - seq_number) as nat)
    }

    /// The swimlane of the vote `hash`: the hashes of the vote and of all
    /// earlier votes of its sender, latest first, down to sequence number 0.
    pub open spec fn swimlane(self, hash: u64) -> Seq<u64> {
        Seq::new(
            (self.votes[hash].seq_number + 1) as nat,
            |i: int| self.nth_previous(hash, i as nat),
        )
    }

    /// The ancestor of the block `hash` at `height`; none where the block
    /// itself is lower than that.
    pub open spec fn find_ancestor(self, hash: u64, height: u64) -> Option<u64> {
        if self.blocks[hash].height < height {
            None
        } else {
            Some(self.nth_parent(hash, (self.blocks[hash].height - height) as nat))
        }
    }

    /// Whether the state holds every vote that `pan` names.
    pub open spec fn votes_known(self, pan: Seq<Observation>) -> bool {
        forall|i: int|
            0 <= i < pan.len() ==> (#[trigger] pan[i] matches Observation::Correct(hash)
                ==> self.votes.contains_key(hash))
    }

    /// What the state lacks to follow the observation `obs` of validator
    /// `idx`: the vote of a correct observation, or evidence against a
    /// faulty validator.
    pub open spec fn missing_obs_dep(self, idx: ValidatorIndex, obs: Observation) -> Option<
        Dependency,
    > {
        match obs {
            Observation::Faulty if !self.evidence.contains_key(idx) => Some(
                Dependency::Evidence(idx),
            ),
            Observation::Correct(hash) if !self.votes.contains_key(hash) => Some(
                Dependency::Vote(hash),
            ),
            _ => None,
        }
    }

    /// The first missing dependency among the entries of `pan` from index
    /// `from` on, in index order.
    pub open spec fn missing_dependency_from(self, pan: Seq<Observation>, from: nat) -> Option<
        Dependency,
    >
        decreases pan.len() - from,
    {
        if from >= pan.len() {
            None
        } else {
            match self.missing_obs_dep(ValidatorIndex(from as u32), pan[from as int]) {
                Some(dep) => Some(dep),
                None => self.missing_dependency_from(pan, from + 1),
            }
        }
    }

    /// The first missing dependency of `pan`, in index order.
    pub open spec fn missing_dependency(self, pan: Seq<Observation>) -> Option<Dependency> {
        self.missing_dependency_from(pan, 0)
    }

    /// Whether the state holds every vote and all the evidence that `pan`
    /// refers to.
    pub open spec fn deps_known(self, pan: Seq<Observation>) -> bool {
        forall|i: int|
            0 <= i < pan.len() ==> self.missing_obs_dep(ValidatorIndex(i as u32), #[trigger] pan[i])
                is None
    }

    /// Whether `pan` sees the sender of the vote `hash` as correct, and sees
    /// that vote: its entry for the sender names the vote or one of its
    /// successors in the swimlane.
    pub open spec fn sees_correct(self, pan: Seq<Observation>, hash: u64) -> bool {
        let vote = self.votes[hash];
        match pan[vote.sender.0 as int] {
            Observation::Correct(latest) => {
                &&& self.votes[latest].seq_number >= vote.seq_number
                &&& self.find_in_swimlane(latest, vote.seq_number) == hash
            },
            _ => false,
        }
    }

    /// Whether `obs_l` can come later in time than `obs_r`.
    pub open spec fn obs_geq(self, obs_l: Observation, obs_r: Observation) -> bool {
        match (obs_l, obs_r) {
            (Observation::Faulty, _) => true,
            (_, Observation::Absent) => true,
            (Observation::Correct(hash_l), Observation::Correct(hash_r)) => hash_l == hash_r
                || self.sees_correct(self.votes[hash_l].panorama, hash_r),
            (_, _) => false,
        }
    }

    /// Whether `pan_l` can come later in time than `pan_r`: entry by entry,
    /// it sees every honest message and every fault that `pan_r` sees.
    pub open spec fn panorama_geq(self, pan_l: Seq<Observation>, pan_r: Seq<Observation>) -> bool {
        forall|i: int|
            0 <= i < pan_l.len() && i < pan_r.len() ==> #[trigger] self.obs_geq(pan_l[i], pan_r[i])
    }

    /// Whether `pan` holds the latest votes of some substate of the state:
    /// it has one entry per validator, the state holds what it refers to,
    /// each vote it names was cast by the validator it is listed for, and it
    /// sees whatever those votes saw.
    pub open spec fn is_panorama_valid(self, pan: Seq<Observation>) -> bool {
        &&& self.pan_linked(pan)
        &&& forall|i: int|
            0 <= i < pan.len() ==> (#[trigger] pan[i] matches Observation::Correct(hash)
                ==> self.panorama_geq(pan, self.votes[hash].panorama))
    }

    /// The verdict on a wire vote: the panorama must be valid, and nonempty
    /// unless the vote brings a block; the sender must be a validator that
    /// the panorama does not call faulty; the sequence number must be 0
    /// without an earlier vote of the sender in the panorama, and one more
    /// than that vote's otherwise.
    pub open spec fn validate_vote(self, wvote: WireVoteView) -> Result<(), VoteError> {
        if (wvote.values is None && crate::vote::spec_is_empty(wvote.panorama))
            || !self.is_panorama_valid(wvote.panorama) || wvote.sender.0 >= self.weights.len() {
            Err(VoteError::Panorama)
        } else {
            match wvote.panorama[wvote.sender.0 as int] {
                Observation::Faulty => Err(VoteError::Panorama),
                Observation::Absent => if wvote.seq_number == 0 {
                    Ok(())
                } else {
                    Err(VoteError::SequenceNumber)
                },
                Observation::Correct(hash) => if wvote.seq_number == self.votes[hash].seq_number
                    + 1 {
                    Ok(())
                } else {
                    Err(VoteError::SequenceNumber)
                },
            }
        }
    }

    /// Whether the state holds what the observation `obs` of validator `idx`
    /// refers to: the vote of a correct observation, cast by that validator,
    /// or evidence against a faulty one.
    pub open spec fn obs_linked(self, idx: int, obs: Observation) -> bool {
        match obs {
            Observation::Absent => true,
            Observation::Correct(hash) => self.votes.contains_key(hash)
                && self.votes[hash].sender.0 == idx,
            Observation::Faulty => self.evidence.contains_key(ValidatorIndex(idx as u32)),
        }
    }

    /// Whether `pan` has one observation per validator and the state holds
    /// everything it refers to.
    pub open spec fn pan_linked(self, pan: Seq<Observation>) -> bool {
        &&& pan.len() == self.weights.len()
        &&& forall|i: int| 0 <= i < pan.len() ==> #[trigger] self.obs_linked(i, pan[i])
    }

    /// The sequence rule for the stored vote `hash`: the sender's own entry
    /// in its panorama is absent for sequence number 0, and names the vote
    /// with the preceding sequence number otherwise; that vote heads the
    /// skip index.
    pub open spec fn seq_rule(self, hash: u64) -> bool {
        let vote = self.votes[hash];
        match vote.panorama[vote.sender.0 as int] {
            Observation::Absent => vote.seq_number == 0,
            Observation::Correct(prev) => {
                &&& self.votes[prev].seq_number + 1 == vote.seq_number
                &&& vote.skip_idx.len() > 0
                &&& vote.skip_idx[0] == prev
            },
            Observation::Faulty => false,
        }
    }

    /// The skip-list rule for the stored vote `hash`: entry `i` is the vote
    /// `2^i` steps back in the swimlane, for every power of two that divides
    /// the sequence number.
    pub open spec fn vote_skip_rule(self, hash: u64) -> bool {
        let vote = self.votes[hash];
        &&& vote.skip_idx.len() == skip_len(vote.seq_number as nat)
        &&& forall|i: int|
            0 <= i < vote.skip_idx.len() ==> #[trigger] vote.skip_idx[i] == self.nth_previous(
                hash,
                vstd::arithmetic::power2::pow2(i as nat),
            )
    }

    /// Whether the stored vote `hash` is consistent with the rest of the store.
    pub open spec fn vote_wf(self, hash: u64) -> bool {
        let vote = self.votes[hash];
        &&& vote.sender.0 < self.weights.len()
        &&& self.pan_linked(vote.panorama)
        &&& self.seq_rule(hash)
        &&& self.vote_skip_rule(hash)
        &&& self.blocks.contains_key(vote.block)
        &&& self.blocks.contains_key(hash) ==> vote.block == hash
    }

    /// Whether the stored block `hash` is consistent with the rest of the
    /// store: a vote with the same hash introduced it, there are more votes
    /// than the block has ancestors, its height is one more than its
    /// parent's, and entry `i` of its skip index is the ancestor `2^i`
    /// generations up.
    pub open spec fn block_wf(self, hash: u64) -> bool {
        let block = self.blocks[hash];
        &&& self.votes.contains_key(hash)
        &&& block.height < self.votes.dom().len()
        &&& block.skip_idx.len() == skip_len(block.height as nat)
        &&& block.height > 0 ==> {
            &&& self.blocks.contains_key(block.skip_idx[0])
            &&& self.blocks[block.skip_idx[0]].height + 1 == block.height
        }
        &&& forall|i: int|
            0 <= i < block.skip_idx.len() ==> #[trigger] block.skip_idx[i] == self.nth_parent(
                hash,
                vstd::arithmetic::power2::pow2(i as nat),
            )
    }

    /// Whether the three stores are consistent with one another.
    pub open spec fn store_wf(self) -> bool {
        &&& self.weights.len() <= u32::MAX
        &&& self.votes.dom().finite()
        &&& forall|hash: u64| self.votes.contains_key(hash) ==> #[trigger] self.vote_wf(hash)
        &&& forall|hash: u64| self.blocks.contains_key(hash) ==> #[trigger] self.block_wf(hash)
        &&& forall|idx: ValidatorIndex| #[trigger]
            self.evidence.contains_key(idx) ==> self.evidence[idx].perpetrator() == idx
    }

    /// Whether the stored vote `hash` lies in the swimlane that the state's
    /// panorama records for its sender: behind the latest vote of a correct
    /// sender, anywhere for a faulty one.
    pub open spec fn in_lane(self, hash: u64) -> bool {
        let vote = self.votes[hash];
        match self.panorama[vote.sender.0 as int] {
            Observation::Absent => false,
            Observation::Correct(tip) => {
                &&& vote.seq_number <= self.votes[tip].seq_number
                &&& self.nth_previous(
                    tip,
                    (self.votes[tip].seq_number - vote.seq_number) as nat,
                ) == hash
            },
            Observation::Faulty => true,
        }
    }

    /// Whether the state's own panorama is consistent with the stores.
    pub open spec fn panorama_wf(self) -> bool {
        &&& self.pan_linked(self.panorama)
        &&& forall|hash: u64| self.votes.contains_key(hash) ==> #[trigger] self.in_lane(hash)
    }

    /// Whether the panorama of every stored vote is valid.
    pub open spec fn votes_valid(self) -> bool {
        forall|hash: u64|
            self.votes.contains_key(hash) ==> self.is_panorama_valid(
                (#[trigger] self.votes[hash]).panorama,
            )
    }

    /// Whether the state is well formed.
    pub open spec fn wf(self) -> bool {
        &&& self.store_wf()
        &&& self.panorama_wf()
        &&& self.votes_valid()
    }

    /// The state of a fresh instance: the given weights, no votes, blocks
    /// or evidence yet, and nothing observed of any validator.
    pub open spec fn init(weights: Seq<Weight>) -> StateView {
        StateView {
            weights,
            votes: Map::empty(),
            blocks: Map::empty(),
            evidence: Map::empty(),
            panorama: Seq::new(weights.len(), |i: int| Observation::Absent),
        }
    }

    /// The signed wire vote that the stored vote `hash` was made from: the
    /// vote's own fields, and the values of the block it introduced, if it
    /// introduced one.
    pub open spec fn wire_vote(self, hash: u64) -> Option<SignedWireVoteView> {
        if self.votes.contains_key(hash) {
            let vote = self.votes[hash];
            Some(
                SignedWireVoteView {
                    wire_vote: WireVoteView {
                        panorama: vote.panorama,
                        sender: vote.sender,
                        values: if self.blocks.contains_key(hash) {
                            Some(self.blocks[hash].values)
                        } else {
                            None
                        },
                        seq_number: vote.seq_number,
                        instant: vote.instant,
                    },
                    signature: vote.signature,
                },
            )
        } else {
            None
        }
    }

    /// The skip index of a new vote: empty without an earlier vote of the
    /// sender in its panorama; otherwise entry `i` is the vote `2^i - 1`
    /// steps back from that earlier vote, for every power of two that
    /// divides the sequence number.
    pub open spec fn vote_skip_idx(self, wvote: WireVoteView) -> Seq<u64> {
        match wvote.panorama[wvote.sender.0 as int] {
            Observation::Correct(prev) => Seq::new(
                skip_len(wvote.seq_number as nat),
                |i: int|
                    self.nth_previous(prev, (vstd::arithmetic::power2::pow2(i as nat) - 1) as nat),
            ),
            _ => Seq::empty(),
        }
    }

    /// The record of a new vote with the given hash: the wire vote's own
    /// fields and signature, the block it votes for (its own where it
    /// brings values, the fork choice otherwise), and its skip index.
    pub open spec fn new_vote(
        self,
        swvote: SignedWireVoteView,
        hash: u64,
        fork_choice: Option<u64>,
    ) -> VoteView {
        let wvote = swvote.wire_vote;
        VoteView {
            panorama: wvote.panorama,
            seq_number: wvote.seq_number,
            sender: wvote.sender,
            block: if wvote.values is Some {
                hash
            } else {
                fork_choice->Some_0
            },
            skip_idx: self.vote_skip_idx(wvote),
            instant: wvote.instant,
            signature: swvote.signature,
        }
    }

    /// The skip index of a new block on top of `parent`: empty without a
    /// parent; otherwise entry `i` is the ancestor `2^i - 1` generations
    /// above the parent, for every power of two that divides the height.
    pub open spec fn block_skip_idx(self, parent: Option<u64>) -> Seq<u64> {
        match parent {
            Some(hash) => Seq::new(
                skip_len((self.blocks[hash].height + 1) as nat),
                |i: int|
                    self.nth_parent(hash, (vstd::arithmetic::power2::pow2(i as nat) - 1) as nat),
            ),
            None => Seq::empty(),
        }
    }

    /// The record of a new block with the given values on top of `parent`.
    pub open spec fn new_block(self, parent: Option<u64>, values: Seq<u64>) -> BlockView {
        BlockView {
            height: match parent {
                Some(hash) => (self.blocks[hash].height + 1) as u64,
                None => 0,
            },
            skip_idx: self.block_skip_idx(parent),
            values,
        }
    }

    /// The observation of the sender after its vote `wvote` with the given
    /// hash came in: a validator known as faulty stays so; a vote that
    /// cites what the state saw last of its sender becomes the latest vote;
    /// any other vote makes the sender faulty.
    pub open spec fn new_observation(self, wvote: WireVoteView, hash: u64) -> Observation {
        let stored = self.panorama[wvote.sender.0 as int];
        if stored is Faulty {
            Observation::Faulty
        } else if stored == wvote.panorama[wvote.sender.0 as int] {
            Observation::Correct(hash)
        } else {
            Observation::Faulty
        }
    }

    /// The evidence after the vote `swvote` came in.  Where the state's
    /// latest vote of the sender is not the one that the new vote cites, and
    /// there is no evidence against the sender yet, the new vote and the
    /// stored vote with the same sequence number are recorded as an
    /// equivocation.
    pub open spec fn new_evidence(self, swvote: SignedWireVoteView) -> Map<
        ValidatorIndex,
        EvidenceView,
    > {
        let wvote = swvote.wire_vote;
        match self.panorama[wvote.sender.0 as int] {
            Observation::Correct(tip) if wvote.panorama[wvote.sender.0 as int]
                != Observation::Correct(tip) && !self.evidence.contains_key(wvote.sender) => {
                let rival = self.find_in_swimlane(tip, wvote.seq_number);
                self.evidence.insert(
                    wvote.sender,
                    EvidenceView::Equivocation(self.wire_vote(rival)->Some_0, swvote),
                )
            },
            _ => self.evidence,
        }
    }

    /// The state after the valid vote `swvote` with the given hash was
    /// added: the vote is stored under its hash, with the block it brings,
    /// if any, on top of the fork choice of its panorama; the sender's
    /// observation and the evidence are brought up to date.
    pub open spec fn add_vote(self, swvote: SignedWireVoteView, hash: u64) -> StateView {
        let wvote = swvote.wire_vote;
        let fork_choice = self.fork_choice(wvote.panorama);
        StateView {
            weights: self.weights,
            votes: self.votes.insert(hash, self.new_vote(swvote, hash, fork_choice)),
            blocks: match wvote.values {
                Some(values) => self.blocks.insert(hash, self.new_block(fork_choice, values)),
                None => self.blocks,
            },
            evidence: self.new_evidence(swvote),
            panorama: self.panorama.update(
                wvote.sender.0 as int,
                self.new_observation(wvote, hash),
            ),
        }
    }

    /// Whether every vote is stored under its own hash: the digest that the
    /// context `C` assigns to the wire vote that it was made from.
    pub open spec fn addressed<C: crate::traits::Context>(self) -> bool {
        forall|hash: u64|
            self.votes.contains_key(hash) ==> (#[trigger] self.wire_vote(
                hash,
            ))->Some_0.wire_vote.hash::<C>() == hash
    }

    /// The state after evidence was offered: recorded under its
    /// perpetrator, unless there is evidence against that validator already.
    pub open spec fn add_evidence(self, evidence: EvidenceView) -> StateView {
        if self.evidence.contains_key(evidence.perpetrator()) {
            self
        } else {
            StateView {
                evidence: self.evidence.insert(evidence.perpetrator(), evidence),
                ..self
            }
        }
    }
}

} // verus!
