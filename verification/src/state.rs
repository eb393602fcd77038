//! The protocol state and the operations on it.

use vstd::prelude::*;
use std::collections::HashMap;
use std::marker::PhantomData;
use crate::block::Block;
use crate::evidence::Evidence;
use crate::model::StateView;
use crate::tallies::Tallies;
use crate::traits::Context;
use crate::validators::ValidatorIndex;
use crate::vertex::{Dependency, SignedWireVote, WireVote};
use crate::vote::{Observation, Panorama, Vote};
pub use crate::weight::Weight;

verus! {

broadcast use vstd::std_specs::hash::group_hash_axioms;

/// The reason a vote is invalid.
#[derive(Clone, Copy, Debug, PartialEq, Eq, Structural)]
pub enum VoteError {
    /// The vote's panorama is inconsistent.
    Panorama,
    /// The vote contains the wrong sequence number.
    SequenceNumber,
}

/// An error that occurred when trying to add a vote.
#[derive(Debug)]
pub struct AddVoteError {
    /// The invalid vote that was not added to the protocol state.
    pub wvote: SignedWireVote,
    /// The reason the vote is invalid.
    pub cause: VoteError,
}

/// A passive instance of the Highway protocol, containing its local state.
///
/// Both observers and active validators instantiate this and pass in all
/// incoming vertices from peers.
#[derive(Debug)]
pub struct State<C: Context> {
    /// The validator's voting weights.
    weights: Vec<Weight>,
    /// All votes imported so far, by hash.
    votes: HashMap<u64, Vote>,
    /// All blocks, by hash.
    blocks: HashMap<u64, Block>,
    /// Evidence to prove a validator malicious, by index.
    evidence: HashMap<u32, Evidence>,
    /// The full panorama, corresponding to the complete protocol state.
    panorama: Panorama,
    /// The embedder's capabilities.
    context: PhantomData<C>,
}

impl<C: Context> View for State<C> {
    type V = StateView;

    closed spec fn view(&self) -> StateView {
        StateView {
            weights: self.weights@,
            votes: Map::new(|hash: u64| self.votes@.contains_key(hash), |hash: u64| self.votes@[hash]@),
            blocks: Map::new(
                |hash: u64| self.blocks@.contains_key(hash),
                |hash: u64| self.blocks@[hash]@,
            ),
            evidence: Map::new(
                |idx: ValidatorIndex| self.evidence@.contains_key(idx.0),
                |idx: ValidatorIndex| self.evidence@[idx.0]@,
            ),
            panorama: self.panorama@,
        }
    }
}

/// Returns the base-2 logarithm of `x`, rounded down,
/// i.e. the greatest `i` such that `2.pow(i) <= x`.
pub fn log2(x: u64) -> (r: u32)
    requires
        x > 0,
    ensures
        vstd::arithmetic::power2::pow2(r as nat) <= x < vstd::arithmetic::power2::pow2(
            (r + 1) as nat,
        ),
        r < 64,
{
    let mut r: u32 = 0;
    let mut y: u64 = x;
    proof {
        vstd::arithmetic::power2::lemma2_to64();
    }
    while y > 1
        invariant
            y >= 1,
            r < 64,
            y * vstd::arithmetic::power2::pow2(r as nat) <= x,
            x < (y + 1) * vstd::arithmetic::power2::pow2(r as nat),
        decreases y,
    {
        proof {
            let p = vstd::arithmetic::power2::pow2(r as nat);
            vstd::arithmetic::power2::lemma_pow2_unfold((r + 1) as nat);
            vstd::arithmetic::power2::lemma_pow2_pos(r as nat);
            assert((y / 2) * (2 * p) <= y * p) by (nonlinear_arith)
                requires
                    p > 0,
                    y >= 0,
            ;
            assert((y + 1) * p <= (y / 2 + 1) * (2 * p)) by (nonlinear_arith)
                requires
                    p > 0,
                    y >= 0,
            ;
            assert(2 * p <= y * p) by (nonlinear_arith)
                requires
                    p > 0,
                    y >= 2,
            ;
            crate::lemmas::lemma_pow2_fits((r + 1) as nat);
        }
        y = y / 2;
        r = r + 1;
    }
    proof {
        vstd::arithmetic::power2::lemma_pow2_unfold((r + 1) as nat);
    }
    r
}

impl<C: Context> State<C> {
    /// Creates the state of a fresh instance with the given validator weights.
    pub fn new(weights: &[Weight]) -> (r: State<C>)
        requires
            weights@.len() <= u32::MAX,
        ensures
            r@ == StateView::init(weights@),
            r@.wf(),
            r@.addressed::<C>(),
    {
        let mut copy: Vec<Weight> = Vec::new();
        let mut i: usize = 0;
        while i < weights.len()
            invariant
                i <= weights@.len(),
                copy@ == weights@.take(i as int),
            decreases weights@.len() - i,
        {
            copy.push(weights[i]);
            assert(weights@.take(i + 1) == weights@.take(i as int).push(weights@[i as int]));
            i += 1;
        }
        assert(weights@.take(weights@.len() as int) == weights@);
        let state = State {
            weights: copy,
            votes: HashMap::new(),
            blocks: HashMap::new(),
            evidence: HashMap::new(),
            panorama: Panorama::new(weights.len()),
            context: PhantomData,
        };
        proof {
            let init = StateView::init(weights@);
            assert(state@.votes =~= init.votes);
            assert(state@.blocks =~= init.blocks);
            assert(state@.evidence =~= init.evidence);
            assert(state@.panorama =~= init.panorama);
            assert forall|j: int| 0 <= j < init.panorama.len() implies #[trigger] init.obs_linked(
                j,
                init.panorama[j],
            ) by {}
        }
        state
    }

    /// Returns evidence against validator nr. `idx`, if present.
    pub fn opt_evidence(&self, idx: ValidatorIndex) -> (r: Option<&Evidence>)
        ensures
            match r {
                Some(evidence) => self@.evidence.contains_key(idx) && evidence@
                    == self@.evidence[idx],
                None => !self@.evidence.contains_key(idx),
            },
    {
        self.evidence.get(&idx.0)
    }

    /// Returns whether evidence against validator nr. `idx` is known.
    pub fn has_evidence(&self, idx: ValidatorIndex) -> (r: bool)
        ensures
            r == self@.evidence.contains_key(idx),
    {
        self.evidence.contains_key(&idx.0)
    }

    /// Returns the vote with the given hash, if present.
    pub fn opt_vote(&self, hash: u64) -> (r: Option<&Vote>)
        ensures
            match r {
                Some(vote) => self@.votes.contains_key(hash) && vote@ == self@.votes[hash],
                None => !self@.votes.contains_key(hash),
            },
    {
        self.votes.get(&hash)
    }

    /// Returns whether the vote with the given hash is known.
    pub fn has_vote(&self, hash: u64) -> (r: bool)
        ensures
            r == self@.votes.contains_key(hash),
    {
        self.votes.contains_key(&hash)
    }

    /// Returns the vote with the given hash, which must be known.
    pub fn vote(&self, hash: u64) -> (r: &Vote)
        requires
            self@.votes.contains_key(hash),
        ensures
            r@ == self@.votes[hash],
    {
        self.opt_vote(hash).unwrap()
    }

    /// Returns the block contained in the vote with the given hash, if present.
    pub fn opt_block(&self, hash: u64) -> (r: Option<&Block>)
        ensures
            match r {
                Some(block) => self@.blocks.contains_key(hash) && block@ == self@.blocks[hash],
                None => !self@.blocks.contains_key(hash),
            },
    {
        self.blocks.get(&hash)
    }

    /// Returns the block contained in the vote with the given hash, which
    /// must be known.
    pub fn block(&self, hash: u64) -> (r: &Block)
        requires
            self@.blocks.contains_key(hash),
        ensures
            r@ == self@.blocks[hash],
    {
        self.opt_block(hash).unwrap()
    }

    /// Returns the list of validator weights.
    pub fn weights(&self) -> (r: &[Weight])
        ensures
            r@ == self@.weights,
    {
        self.weights.as_slice()
    }

    /// Returns the weight of validator nr. `idx`.
    pub fn weight(&self, idx: ValidatorIndex) -> (r: Weight)
        requires
            idx.0 < self@.weights.len(),
        ensures
            r == self@.weights[idx.0 as int],
    {
        self.weights[idx.0 as usize]
    }

    /// Returns the complete protocol state's latest panorama.
    pub fn panorama(&self) -> (r: &Panorama)
        ensures
            r@ == self@.panorama,
    {
        &self.panorama
    }

    /// Returns the ancestor of the block with the given `hash`, on the specified `height`, or
    /// `None` if the block's height is lower than that.
    pub fn find_ancestor(&self, hash: u64, height: u64) -> (r: Option<u64>)
        requires
            self@.store_wf(),
            self@.blocks.contains_key(hash),
        ensures
            r == self@.find_ancestor(hash, height),
            r matches Some(ancestor) ==> self@.blocks.contains_key(ancestor)
                && self@.blocks[ancestor].height == height,
        decreases self@.blocks[hash].height,
    {
        let block = self.block(hash);
        if block.height < height {
            return None;
        }
        if block.height == height {
            return Some(hash);
        }
        let diff = block.height - height;
        // We want to make the greatest step 2^i such that 2^i <= diff.
        let max_i = log2(diff) as usize;
        proof {
            assert(self@.block_wf(hash));
        }
        let i = if max_i < block.skip_idx.len() - 1 {
            max_i
        } else {
            block.skip_idx.len() - 1
        };
        let next = block.skip_idx[i];
        proof {
            let step = vstd::arithmetic::power2::pow2(i as nat);
            if i < max_i {
                vstd::arithmetic::power2::lemma_pow2_strictly_increases(i as nat, max_i as nat);
            }
            vstd::arithmetic::power2::lemma_pow2_pos(i as nat);
            assert(next == self@.blocks[hash].skip_idx[i as int]);
            self@.lemma_nth_parent(hash, step);
            self@.lemma_nth_parent_add(hash, step, (diff - step) as nat);
        }
        self.find_ancestor(next, height)
    }

    /// Returns the hash of the message with the given sequence number from the sender of `hash`.
    /// The sequence number must not be higher than that of the vote with `hash`.
    pub fn find_in_swimlane(&self, hash: u64, seq_number: u64) -> (r: u64)
        requires
            self@.store_wf(),
            self@.votes.contains_key(hash),
            seq_number <= self@.votes[hash].seq_number,
        ensures
            r == self@.find_in_swimlane(hash, seq_number),
            self@.votes.contains_key(r),
            self@.votes[r].sender == self@.votes[hash].sender,
            self@.votes[r].seq_number == seq_number,
        decreases self@.votes[hash].seq_number,
    {
        let vote = self.vote(hash);
        if vote.seq_number == seq_number {
            return hash;
        }
        let diff = vote.seq_number - seq_number;
        // We want to make the greatest step 2^i such that 2^i <= diff.
        let max_i = log2(diff) as usize;
        proof {
            assert(self@.vote_wf(hash));
        }
        let i = if max_i < vote.skip_idx.len() - 1 {
            max_i
        } else {
            vote.skip_idx.len() - 1
        };
        let next = vote.skip_idx[i];
        proof {
            let step = vstd::arithmetic::power2::pow2(i as nat);
            if i < max_i {
                vstd::arithmetic::power2::lemma_pow2_strictly_increases(i as nat, max_i as nat);
            }
            vstd::arithmetic::power2::lemma_pow2_pos(i as nat);
            assert(next == self@.votes[hash].skip_idx[i as int]);
            self@.lemma_nth_previous(hash, step);
            self@.lemma_nth_previous_add(hash, step, (diff - step) as nat);
        }
        self.find_in_swimlane(next, seq_number)
    }

    /// Returns the missing dependency if `obs` is referring to a vertex we don't know yet.
    pub fn missing_obs_dep(&self, idx: ValidatorIndex, obs: &Observation) -> (r: Option<Dependency>)
        ensures
            r == self@.missing_obs_dep(idx, *obs),
    {
        match obs {
            Observation::Faulty => if !self.has_evidence(idx) {
                Some(Dependency::Evidence(idx))
            } else {
                None
            },
            Observation::Correct(hash) => if !self.has_vote(*hash) {
                Some(Dependency::Vote(*hash))
            } else {
                None
            },
            Observation::Absent => None,
        }
    }

    /// Returns the first missing dependency of the panorama, or `None` if all are satisfied.
    pub fn missing_dependency(&self, panorama: &Panorama) -> (r: Option<Dependency>)
        requires
            panorama@.len() <= u32::MAX,
        ensures
            r == self@.missing_dependency(panorama@),
            r is None <==> self@.deps_known(panorama@),
    {
        let mut i: usize = 0;
        while i < panorama.0.len()
            invariant
                i <= panorama@.len() <= u32::MAX,
                self@.missing_dependency(panorama@) == self@.missing_dependency_from(
                    panorama@,
                    i as nat,
                ),
                forall|j: int|
                    0 <= j < i ==> self@.missing_obs_dep(
                        ValidatorIndex(j as u32),
                        #[trigger] panorama@[j],
                    ) is None,
            decreases panorama@.len() - i,
        {
            let dep = self.missing_obs_dep(ValidatorIndex(i as u32), &panorama.0[i]);
            if dep.is_some() {
                return dep;
            }
            i += 1;
        }
        None
    }

    /// Returns `true` if `pan` sees the sender of `hash` as correct, and sees that vote.
    pub fn sees_correct(&self, pan: &Panorama, hash: u64) -> (r: bool)
        requires
            self@.store_wf(),
            self@.votes.contains_key(hash),
            pan@.len() == self@.weights.len(),
            self@.votes_known(pan@),
        ensures
            r == self@.sees_correct(pan@, hash),
    {
        let vote = self.vote(hash);
        proof {
            assert(self@.vote_wf(hash));
        }
        match pan.get(vote.sender).correct() {
            None => false,
            Some(latest) => {
                self.vote(latest).seq_number >= vote.seq_number && hash == self.find_in_swimlane(
                    latest,
                    vote.seq_number,
                )
            },
        }
    }

    /// Returns whether `obs_l` can come later in time than `obs_r`.
    pub fn obs_geq(&self, obs_l: &Observation, obs_r: &Observation) -> (r: bool)
        requires
            self@.store_wf(),
            *obs_l matches Observation::Correct(hash) ==> self@.votes.contains_key(hash),
            *obs_r matches Observation::Correct(hash) ==> self@.votes.contains_key(hash),
        ensures
            r == self@.obs_geq(*obs_l, *obs_r),
    {
        match (obs_l, obs_r) {
            (Observation::Faulty, _) => true,
            (_, Observation::Absent) => true,
            (Observation::Correct(hash_l), Observation::Correct(hash_r)) => {
                if *hash_l == *hash_r {
                    true
                } else {
                    let vote_l = self.vote(*hash_l);
                    proof {
                        assert(self@.vote_wf(*hash_l));
                        self@.lemma_linked_votes_known(vote_l@.panorama);
                    }
                    self.sees_correct(&vote_l.panorama, *hash_r)
                }
            },
            (_, _) => false,
        }
    }

    /// Returns whether `pan_l` can possibly come later in time than `pan_r`, i.e. it can see
    /// every honest message and every fault seen by `pan_r`.
    pub fn panorama_geq(&self, pan_l: &Panorama, pan_r: &Panorama) -> (r: bool)
        requires
            self@.store_wf(),
            self@.votes_known(pan_l@),
            self@.votes_known(pan_r@),
        ensures
            r == self@.panorama_geq(pan_l@, pan_r@),
    {
        let mut i: usize = 0;
        while i < pan_l.0.len() && i < pan_r.0.len()
            invariant
                self@.store_wf(),
                self@.votes_known(pan_l@),
                self@.votes_known(pan_r@),
                forall|j: int| 0 <= j < i ==> #[trigger] self@.obs_geq(pan_l@[j], pan_r@[j]),
            decreases pan_l@.len() - i,
        {
            if !self.obs_geq(&pan_l.0[i], &pan_r.0[i]) {
                return false;
            }
            i += 1;
        }
        true
    }

    /// Returns whether `pan` is valid, i.e. it contains the latest votes of some substate of `self`.
    pub fn is_panorama_valid(&self, pan: &Panorama) -> (r: bool)
        requires
            self@.store_wf(),
        ensures
            r == self@.is_panorama_valid(pan@),
    {
        if pan.0.len() != self.weights.len() {
            return false;
        }
        let mut i: usize = 0;
        while i < pan.0.len()
            invariant
                self@.store_wf(),
                i <= pan@.len() == self@.weights.len(),
                forall|j: int| 0 <= j < i ==> #[trigger] self@.obs_linked(j, pan@[j]),
            decreases pan@.len() - i,
        {
            let linked = match &pan.0[i] {
                Observation::Absent => true,
                Observation::Faulty => self.has_evidence(ValidatorIndex(i as u32)),
                Observation::Correct(hash) => match self.opt_vote(*hash) {
                    Some(vote) => vote.sender.0 as usize == i,
                    None => false,  // Unknown vote. Not a substate of `state`.
                },
            };
            if !linked {
                assert(!self@.obs_linked(i as int, pan@[i as int]));
                return false;
            }
            i += 1;
        }
        proof {
            self@.lemma_linked_votes_known(pan@);
        }
        let mut k: usize = 0;
        while k < pan.0.len()
            invariant
                self@.store_wf(),
                self@.pan_linked(pan@),
                self@.votes_known(pan@),
                k <= pan@.len(),
                forall|j: int|
                    0 <= j < k ==> (#[trigger] pan@[j] matches Observation::Correct(hash)
                        ==> self@.panorama_geq(pan@, self@.votes[hash].panorama)),
            decreases pan@.len() - k,
        {
            if let Observation::Correct(hash) = &pan.0[k] {
                let vote = self.vote(*hash);
                proof {
                    assert(self@.vote_wf(*hash));
                    self@.lemma_linked_votes_known(vote@.panorama);
                }
                if !self.panorama_geq(pan, &vote.panorama) {
                    return false;
                }
            }
            k += 1;
        }
        true
    }

    /// Returns an error if `wvote` is invalid.  The vote's instant is not
    /// examined.
    pub fn validate_vote(&self, wvote: &WireVote) -> (r: Result<(), VoteError>)
        requires
            self@.store_wf(),
        ensures
            r == self@.validate_vote(wvote@),
    {
        let sender = wvote.sender;
        // Check that the panorama is consistent.
        if (wvote.values.is_none() && wvote.panorama.is_empty()) || !self.is_panorama_valid(
            &wvote.panorama,
        ) || sender.0 as usize >= self.weights.len() {
            return Err(VoteError::Panorama);
        }
        // Check that the vote's sequence number is one more than the sender's previous one.
        match wvote.panorama.get(sender) {
            Observation::Faulty => Err(VoteError::Panorama),
            Observation::Absent => if wvote.seq_number == 0 {
                Ok(())
            } else {
                Err(VoteError::SequenceNumber)
            },
            Observation::Correct(hash) => {
                proof {
                    assert(self@.obs_linked(sender.0 as int, wvote@.panorama[sender.0 as int]));
                }
                let previous = self.vote(*hash).seq_number;
                if wvote.seq_number > 0 && wvote.seq_number - 1 == previous {
                    Ok(())
                } else {
                    Err(VoteError::SequenceNumber)
                }
            },
        }
    }

    /// Records evidence under its perpetrator.  Where there is evidence
    /// against that validator already, nothing changes.
    pub fn add_evidence(&mut self, evidence: Evidence)
        ensures
            final(self)@ == old(self)@.add_evidence(evidence@),
            final(self)@.extends(old(self)@),
            old(self)@.store_wf() ==> final(self)@.store_wf(),
            old(self)@.wf() ==> final(self)@.wf(),
            old(self)@.addressed::<C>() ==> final(self)@.addressed::<C>(),
    {
        let idx = evidence.perpetrator();
        proof {
            if old(self)@.store_wf() {
                old(self)@.lemma_add_evidence_wf(evidence@);
            }
        }
        if !self.evidence.contains_key(&idx.0) {
            self.evidence.insert(idx.0, evidence);
            proof {
                let next = old(self)@.add_evidence(evidence@);
                assert(self@.evidence =~= next.evidence);
                assert(self@.votes =~= next.votes);
                assert(self@.blocks =~= next.blocks);
            }
        }
        proof {
            if old(self)@.addressed::<C>() {
                assert forall|hash: u64| self@.votes.contains_key(hash) implies (
                #[trigger] self@.wire_vote(hash))->Some_0.wire_vote.hash::<C>() == hash by {
                    assert(self@.wire_vote(hash) == old(self)@.wire_vote(hash));
                }
            }
        }
    }

    /// Rebuilds the signed wire vote that the vote with the given hash was
    /// made from, if that vote is known.
    pub fn wire_vote(&self, hash: u64) -> (r: Option<SignedWireVote>)
        ensures
            match r {
                Some(swvote) => self@.wire_vote(hash) == Some(swvote@),
                None => self@.wire_vote(hash) is None,
            },
    {
        let vote = match self.opt_vote(hash) {
            Some(vote) => vote,
            None => {
                return None;
            },
        };
        let values = match self.opt_block(hash) {
            Some(block) => Some(crate::vertex::clone_u64s(&block.values)),
            None => None,
        };
        Some(
            SignedWireVote {
                wire_vote: WireVote {
                    panorama: vote.panorama.clone(),
                    sender: vote.sender,
                    values,
                    seq_number: vote.seq_number,
                    instant: vote.instant,
                },
                signature: vote.signature,
            },
        )
    }

    /// Returns the fork choice from `pan`'s view, or `None` if there are no blocks yet.
    ///
    /// The correct validators' latest votes count as votes for the block they point to, as well as
    /// all of its ancestors. At each level the block with the highest score is selected from the
    /// children of the previously selected block (or from all blocks at height 0), until a block
    /// is reached that has no children with any votes.
    pub fn fork_choice(&self, pan: &Panorama) -> (r: Option<u64>)
        requires
            self@.store_wf(),
            self@.votes_known(pan@),
        ensures
            r == self@.fork_choice(pan@),
            r matches Some(bhash) ==> self@.blocks.contains_key(bhash),
            r is Some <==> exists|i: int|
                0 <= i < pan@.len() && i < self@.weights.len() && pan@[i] is Correct,
    {
        // Collect all correct votes in a tally, with the height of the block they vote for.
        let n = if pan.0.len() < self.weights.len() {
            pan.0.len()
        } else {
            self.weights.len()
        };
        let mut tallies = Tallies::new();
        let mut i: usize = 0;
        while i < n
            invariant
                self@.store_wf(),
                self@.votes_known(pan@),
                i <= n,
                n <= pan@.len(),
                n <= self@.weights.len(),
                tallies@.level == 0,
                tallies@.entries == self@.tally_entries(pan@, i as nat),
                tallies@.wf(self@),
                tallies@.entries.len() > 0 <==> exists|j: int| 0 <= j < i && pan@[j] is Correct,
            decreases n - i,
        {
            if let Some(hash) = pan.0[i].correct() {
                proof {
                    assert(self@.vote_wf(hash));
                }
                let bhash = self.vote(hash).block;
                tallies.add(self.block(bhash).height, bhash, self.weights[i]);
                assert(pan@[i as int] is Correct);
            }
            i += 1;
        }
        loop
            invariant
                self@.store_wf(),
                tallies@.wf(self@),
                self@.ghost_choice(tallies@.entries, tallies@.level) == self@.fork_choice(pan@),
                tallies@.entries.len() > 0 <==> exists|j: int|
                    0 <= j < pan@.len() && j < self@.weights.len() && pan@[j] is Correct,
            decreases u64::MAX - tallies@.level,
        {
            // Find the block selected at the tally's level.
            let (height, bhash) = match tallies.find_decided(self) {
                Some(decided) => decided,
                None => {
                    return None;
                },
            };
            // Drop all votes that are not for descendants of `bhash`.
            tallies = tallies.filter_descendants(height, bhash, self);
            // If there are no votes left, `bhash` itself is the fork choice. Otherwise repeat.
            if tallies.is_empty() {
                return Some(bhash);
            }
        }
    }

    /// Updates the state's panorama with an incoming vote that was found valid.
    ///
    /// If the new vote cites the latest vote of its sender, it becomes the
    /// latest vote.  If it does not, it is an equivocation: the sender
    /// becomes faulty, and the evidence is recorded.
    fn update_panorama(&mut self, swvote: &SignedWireVote)
        requires
            old(self)@.wf(),
            old(self)@.validate_vote(swvote@.wire_vote) is Ok,
        ensures
            final(self)@.same_store(old(self)@),
            final(self)@.evidence == old(self)@.new_evidence(swvote@),
            final(self)@.panorama == old(self)@.panorama.update(
                swvote@.wire_vote.sender.0 as int,
                old(self)@.new_observation(swvote@.wire_vote, swvote@.wire_vote.hash::<C>()),
            ),
    {
        let sender = swvote.wire_vote.sender;
        proof {
            old(self)@.lemma_accepted(swvote@.wire_vote);
        }
        let stored = *self.panorama.get(sender);
        let cited = *swvote.wire_vote.panorama.get(sender);
        let new_obs = match stored {
            Observation::Faulty => Observation::Faulty,
            _ => {
                if stored == cited {
                    Observation::Correct(swvote.hash::<C>())
                } else {
                    if let Observation::Correct(tip) = stored {
                        if !self.has_evidence(sender) {
                            proof {
                                old(self)@.lemma_rival(swvote@.wire_vote, tip);
                            }
                            let rival = self.find_in_swimlane(tip, swvote.wire_vote.seq_number);
                            let rival_vote = self.wire_vote(rival).unwrap();
                            self.add_evidence(Evidence::Equivocation(rival_vote, swvote.clone()));
                        }
                    }
                    Observation::Faulty
                }
            },
        };
        self.panorama.update(sender, new_obs);
        proof {
            assert(self@.votes =~= old(self)@.votes);
            assert(self@.blocks =~= old(self)@.blocks);
            assert(self@.evidence =~= old(self)@.new_evidence(swvote@));
        }
    }

    /// Adds the vote to the protocol state, or returns an error if it is invalid.
    ///
    /// A vote under whose hash a vote is stored already is known: nothing
    /// changes.  Any other vote is validated, and added if it is valid.
    pub fn add_vote(&mut self, swvote: SignedWireVote) -> (r: Result<(), AddVoteError>)
        requires
            old(self)@.wf(),
        ensures
            old(self)@.votes.contains_key(swvote@.wire_vote.hash::<C>()) ==> r is Ok
                && final(self)@ == old(self)@,
            !old(self)@.votes.contains_key(swvote@.wire_vote.hash::<C>()) ==> match r {
                Ok(()) => {
                    &&& old(self)@.validate_vote(swvote@.wire_vote) is Ok
                    &&& final(self)@ == old(self)@.add_vote(
                        swvote@,
                        swvote@.wire_vote.hash::<C>(),
                    )
                },
                Err(err) => {
                    &&& old(self)@.validate_vote(swvote@.wire_vote) == Err::<(), VoteError>(
                        err.cause,
                    )
                    &&& err.wvote@ == swvote@
                    &&& final(self)@ == old(self)@
                },
            },
            final(self)@.wf(),
            final(self)@.extends(old(self)@),
            old(self)@.addressed::<C>() ==> final(self)@.addressed::<C>(),
    {
        let hash = swvote.hash::<C>();
        if self.has_vote(hash) {
            return Ok(());
        }
        if let Err(err) = self.validate_vote(&swvote.wire_vote) {
            return Err(swvote.with_error(err));
        }
        let ghost before = self@;
        let ghost signed = swvote@;
        let ghost wvote = swvote@.wire_vote;
        self.update_panorama(&swvote);
        proof {
            before.lemma_accepted(wvote);
            before.lemma_add_vote_extends(signed, hash);
            assert(self@.extends(before));
            assert forall|idx: ValidatorIndex| #[trigger]
                self@.evidence.contains_key(idx) implies self@.evidence[idx].perpetrator()
                == idx by {
                if !before.evidence.contains_key(idx) {
                    before.lemma_rival(wvote, before.panorama[wvote.sender.0 as int]->Correct_0);
                }
            }
            self@.lemma_more_evidence_store_wf(before);
            self@.law_fork_choice_deterministic(before, wvote.panorama);
        }
        let fork_choice = self.fork_choice(&swvote.wire_vote.panorama);
        proof {
            if wvote.values is None {
                let i = choose|i: int| 0 <= i < wvote.panorama.len() && wvote.panorama[i] is Correct;
                assert(wvote.panorama[i] is Correct);
            }
            if let Some(parent) = fork_choice {
                assert(before.block_wf(parent));
                vstd::std_specs::hash::axiom_spec_hash_map_len(&self.votes);
                assert(self@.votes.dom() =~= self.votes@.dom());
            }
        }
        let ghost middle = self@;
        let (vote, opt_values) = Vote::new(swvote, fork_choice, self);
        if let Some(values) = opt_values {
            let block = Block::new(fork_choice, values, self);
            proof {
                middle.lemma_same_store_records(before, signed, hash, fork_choice, values@);
            }
            self.blocks.insert(hash, block);
        }
        proof {
            middle.lemma_same_store_records(before, signed, hash, fork_choice, Seq::empty());
        }
        self.votes.insert(hash, vote);
        proof {
            let after = before.add_vote(signed, hash);
            assert(self@.votes =~= after.votes);
            assert(self@.blocks =~= after.blocks);
            assert(self@.evidence =~= after.evidence);
            assert(self@ == after);
            vstd::std_specs::hash::axiom_spec_hash_map_len(&old(self).votes);
            assert(before.votes.dom() =~= old(self).votes@.dom());
            before.lemma_add_vote_store_wf(signed, hash);
            before.lemma_add_vote_panorama_wf(signed, hash);
            before.lemma_add_vote_votes_valid(signed, hash);
            if before.addressed::<C>() {
                before.law_add_vote_keeps_addressed::<C>(signed);
            }
        }
        Ok(())
    }

    /// Returns the votes (with hashes) by the same sender, in reverse chronological
    /// order, starting with the specified vote.
    pub fn swimlane<'a>(&'a self, vhash: u64) -> (r: Vec<(u64, &'a Vote)>)
        requires
            self@.store_wf(),
            self@.votes.contains_key(vhash),
        ensures
            r@.len() == self@.swimlane(vhash).len(),
            forall|i: int|
                0 <= i < r@.len() ==> (#[trigger] r@[i]).0 == self@.swimlane(vhash)[i]
                    && self@.votes.contains_key(r@[i].0) && r@[i].1@ == self@.votes[r@[i].0],
    {
        let mut lane: Vec<(u64, &'a Vote)> = Vec::new();
        let mut next = Some(vhash);
        let ghost total = self@.votes[vhash].seq_number + 1;
        while next.is_some()
            invariant
                self@.store_wf(),
                self@.votes.contains_key(vhash),
                total == self@.votes[vhash].seq_number + 1,
                lane@.len() <= total,
                next == if lane@.len() < total {
                    Some(self@.nth_previous(vhash, lane@.len()))
                } else {
                    None
                },
                forall|i: int|
                    0 <= i < lane@.len() ==> (#[trigger] lane@[i]).0 == self@.nth_previous(
                        vhash,
                        i as nat,
                    ) && self@.votes.contains_key(lane@[i].0) && lane@[i].1@ == self@.votes[lane@[i].0],
            decreases total - lane@.len(),
        {
            let current = next.unwrap();
            proof {
                let steps = lane@.len();
                self@.lemma_nth_previous(vhash, steps);
                self@.lemma_nth_previous_add(vhash, steps, 1);
                assert(self@.vote_wf(current));
                assert(self@.nth_previous(current, 1) == self@.nth_previous(
                    self@.votes[current].skip_idx[0],
                    0,
                ));
                if self@.votes[current].seq_number > 0 {
                    crate::lemmas::lemma_skip_len_pos(self@.votes[current].seq_number as nat);
                }
            }
            let vote = self.vote(current);
            next = vote.previous();
            lane.push((current, vote));
        }
        lane
    }
}

} // verus!
