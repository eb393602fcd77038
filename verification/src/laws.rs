//! What holds of every well-formed protocol state, and of the operations
//! on it.  `State::new` gives a well-formed state, and `State::add_vote`
//! and `State::add_evidence` keep it so.

use vstd::prelude::*;
use crate::evidence::EvidenceView;
use crate::model::StateView;
use crate::state::VoteError;
use crate::validators::ValidatorIndex;
use crate::vertex::{SignedWireVoteView, WireVoteView};
use crate::vote::Observation;

verus! {

impl StateView {
    /// A stored vote with sequence number 0 has no earlier vote of its
    /// sender in its panorama, and only such a vote; any other names there
    /// the stored vote whose sequence number is one less.
    pub proof fn law_vote_sequence(self, hash: u64)
        requires
            self.wf(),
            self.votes.contains_key(hash),
        ensures
            self.votes[hash].panorama[self.votes[hash].sender.0 as int] is Absent
                <==> self.votes[hash].seq_number == 0,
            self.votes[hash].seq_number != 0 ==> {
                &&& self.votes[hash].panorama[self.votes[hash].sender.0 as int] matches Observation::Correct(
                    prev,
                )
                &&& self.votes.contains_key(prev)
                &&& self.votes[prev].seq_number + 1 == self.votes[hash].seq_number
            },
    {
        let vote = self.votes[hash];
        assert(self.vote_wf(hash));
        assert(self.obs_linked(vote.sender.0 as int, vote.panorama[vote.sender.0 as int]));
    }

    /// A stored block has height 0 exactly if it has no parent; any other
    /// block is one higher than its parent, which is stored.
    pub proof fn law_block_height(self, hash: u64)
        requires
            self.wf(),
            self.blocks.contains_key(hash),
        ensures
            self.blocks[hash].height == 0 <==> self.blocks[hash].parent() is None,
            self.blocks[hash].parent() matches Some(parent) ==> self.blocks.contains_key(parent)
                && self.blocks[hash].height == self.blocks[parent].height + 1,
    {
        assert(self.block_wf(hash));
        if self.blocks[hash].height > 0 {
            crate::lemmas::lemma_skip_len_pos(self.blocks[hash].height as nat);
        }
    }

    /// The skip index of a stored vote with sequence number `n` has an
    /// entry `i` exactly where `2^i` divides a positive `n`, and that entry
    /// is a stored vote by the same sender with sequence number `n - 2^i`.
    pub proof fn law_vote_skip_list(self, hash: u64, i: nat)
        requires
            self.wf(),
            self.votes.contains_key(hash),
        ensures
            i < self.votes[hash].skip_idx.len() <==> self.votes[hash].seq_number > 0
                && (self.votes[hash].seq_number as nat) % vstd::arithmetic::power2::pow2(i) == 0,
            i < self.votes[hash].skip_idx.len() ==> {
                let entry = self.votes[hash].skip_idx[i as int];
                &&& self.votes.contains_key(entry)
                &&& self.votes[entry].sender == self.votes[hash].sender
                &&& self.votes[entry].seq_number == self.votes[hash].seq_number
                    - vstd::arithmetic::power2::pow2(i)
            },
    {
        let vote = self.votes[hash];
        assert(self.vote_wf(hash));
        crate::lemmas::lemma_skip_len_divides(vote.seq_number as nat, i);
        if i < vote.skip_idx.len() {
            crate::lemmas::lemma_skip_len_bound(vote.seq_number as nat, i);
            assert(vote.skip_idx[i as int] == self.nth_previous(
                hash,
                vstd::arithmetic::power2::pow2(i),
            ));
            self.lemma_nth_previous(hash, vstd::arithmetic::power2::pow2(i));
        }
    }

    /// The skip index of a stored block of height `n` has an entry `i`
    /// exactly where `2^i` divides a positive `n`, and that entry is a
    /// stored block of height `n - 2^i`.
    pub proof fn law_block_skip_list(self, hash: u64, i: nat)
        requires
            self.wf(),
            self.blocks.contains_key(hash),
        ensures
            i < self.blocks[hash].skip_idx.len() <==> self.blocks[hash].height > 0
                && (self.blocks[hash].height as nat) % vstd::arithmetic::power2::pow2(i) == 0,
            i < self.blocks[hash].skip_idx.len() ==> {
                let entry = self.blocks[hash].skip_idx[i as int];
                &&& self.blocks.contains_key(entry)
                &&& self.blocks[entry].height == self.blocks[hash].height
                    - vstd::arithmetic::power2::pow2(i)
            },
    {
        let block = self.blocks[hash];
        assert(self.block_wf(hash));
        crate::lemmas::lemma_skip_len_divides(block.height as nat, i);
        if i < block.skip_idx.len() {
            crate::lemmas::lemma_skip_len_bound(block.height as nat, i);
            assert(block.skip_idx[i as int] == self.nth_parent(
                hash,
                vstd::arithmetic::power2::pow2(i),
            ));
            self.lemma_nth_parent(hash, vstd::arithmetic::power2::pow2(i));
        }
    }

    /// The entries of `pan` from `from` on lack nothing exactly if the
    /// search for a missing dependency from there on finds none.
    pub proof fn lemma_missing_dependency_from(self, pan: Seq<Observation>, from: nat)
        ensures
            self.missing_dependency_from(pan, from) is None <==> forall|i: int|
                from <= i < pan.len() ==> self.missing_obs_dep(
                    ValidatorIndex(i as u32),
                    #[trigger] pan[i],
                ) is None,
        decreases pan.len() - from,
    {
        if from < pan.len() {
            self.lemma_missing_dependency_from(pan, from + 1);
            if self.missing_obs_dep(ValidatorIndex(from as u32), pan[from as int]) is Some {
                assert(!(self.missing_obs_dep(ValidatorIndex(from as u32), pan[from as int])
                    is None));
            }
        }
    }

    /// A panorama has no missing dependency exactly if the state holds
    /// every vote and all the evidence that it refers to; and a wire vote
    /// whose panorama refers to anything else is rejected for its panorama.
    pub proof fn law_missing_dependency(self, wvote: WireVoteView)
        requires
            wvote.panorama.len() <= u32::MAX,
        ensures
            self.missing_dependency(wvote.panorama) is None <==> self.deps_known(wvote.panorama),
            self.missing_dependency(wvote.panorama) is Some ==> self.validate_vote(wvote) == Err::<
                (),
                VoteError,
            >(VoteError::Panorama),
    {
        let pan = wvote.panorama;
        self.lemma_missing_dependency_from(pan, 0);
        if !self.deps_known(pan) {
            let i = choose|i: int|
                0 <= i < pan.len() && !(self.missing_obs_dep(
                    ValidatorIndex(i as u32),
                    #[trigger] pan[i],
                ) is None);
            if self.pan_linked(pan) {
                assert(self.obs_linked(i, pan[i]));
            }
        }
    }

    /// Every panorama can come later in time than itself.
    pub proof fn law_panorama_geq_reflexive(self, pan: Seq<Observation>)
        ensures
            self.panorama_geq(pan, pan),
    {
    }

    /// After a vote was added under a new hash, the signed wire vote rebuilt
    /// for that hash is the vote that was added.
    pub proof fn law_wire_vote_round_trip(self, swvote: SignedWireVoteView, hash: u64)
        requires
            self.wf(),
            !self.votes.contains_key(hash),
        ensures
            self.add_vote(swvote, hash).wire_vote(hash) == Some(swvote),
    {
        self.lemma_add_vote_extends(swvote, hash);
    }

    /// Where every vote is stored under its own hash, it stays so when a
    /// vote is added under its hash.
    pub proof fn law_add_vote_keeps_addressed<C: crate::traits::Context>(
        self,
        swvote: SignedWireVoteView,
    )
        requires
            self.store_wf(),
            self.addressed::<C>(),
            !self.votes.contains_key(swvote.wire_vote.hash::<C>()),
        ensures
            self.add_vote(swvote, swvote.wire_vote.hash::<C>()).addressed::<C>(),
    {
        let hash = swvote.wire_vote.hash::<C>();
        let next = self.add_vote(swvote, hash);
        self.lemma_add_vote_extends(swvote, hash);
        assert forall|h: u64| next.votes.contains_key(h) implies (#[trigger] next.wire_vote(
            h,
        ))->Some_0.wire_vote.hash::<C>() == h by {
            if h != hash {
                assert(self.wire_vote(h)->Some_0.wire_vote.hash::<C>() == h);
                assert(next.wire_vote(h) == self.wire_vote(h));
            }
        }
    }

    /// Evidence against a validator against whom there is evidence already
    /// changes nothing: of two pieces of evidence with the same perpetrator
    /// the second has no effect.
    pub proof fn law_add_evidence_idempotent(self, first: EvidenceView, second: EvidenceView)
        requires
            first.perpetrator() == second.perpetrator(),
        ensures
            self.add_evidence(first).add_evidence(second) == self.add_evidence(first),
    {
    }

    /// Adding an accepted vote under a new hash keeps a state well formed.
    pub proof fn law_add_vote_keeps_wf(self, swvote: SignedWireVoteView, hash: u64)
        requires
            self.wf(),
            self.validate_vote(swvote.wire_vote) is Ok,
            !self.votes.contains_key(hash),
            self.votes.dom().len() <= u64::MAX,
        ensures
            self.add_vote(swvote, hash).wf(),
    {
        self.lemma_add_vote_store_wf(swvote, hash);
        self.lemma_add_vote_panorama_wf(swvote, hash);
        self.lemma_add_vote_votes_valid(swvote, hash);
    }

    /// The state's panorama never goes back: after a vote was added, it can
    /// come later in time than the panorama before.
    pub proof fn law_panorama_grows(self, swvote: SignedWireVoteView, hash: u64)
        requires
            self.wf(),
            self.validate_vote(swvote.wire_vote) is Ok,
            !self.votes.contains_key(hash),
        ensures
            self.add_vote(swvote, hash).panorama_geq(
                self.add_vote(swvote, hash).panorama,
                self.panorama,
            ),
    {
        let next = self.add_vote(swvote, hash);
        let sender = swvote.wire_vote.sender.0 as int;
        self.lemma_accepted(swvote.wire_vote);
        self.lemma_add_vote_extends(swvote, hash);
        assert(self.obs_linked(sender, self.panorama[sender]));
        assert forall|i: int| 0 <= i < next.panorama.len() && i < self.panorama.len() implies #[trigger] next.obs_geq(
            next.panorama[i],
            self.panorama[i],
        ) by {
            if i == sender {
                if let Observation::Correct(tip) = self.panorama[sender] {
                    if next.panorama[sender] is Correct {
                        assert(next.nth_previous(tip, 0) == tip);
                        assert(next.sees_correct(next.votes[hash].panorama, tip));
                    }
                }
            }
        }
    }

    /// The panorama of every stored vote is valid: the state holds what it
    /// refers to, and it sees whatever the votes that it names saw.
    pub proof fn law_stored_panorama_valid(self, hash: u64)
        requires
            self.wf(),
            self.votes.contains_key(hash),
        ensures
            self.is_panorama_valid(self.votes[hash].panorama),
    {
    }

    /// Two votes of one validator with the same sequence number, accepted
    /// one after the other under different hashes, leave that validator
    /// faulty, with evidence against it; the evidence against the other
    /// validators is as before.
    pub proof fn law_equivocation_detected(
        self,
        first: SignedWireVoteView,
        first_hash: u64,
        second: SignedWireVoteView,
        second_hash: u64,
    )
        requires
            self.wf(),
            self.validate_vote(first.wire_vote) is Ok,
            !self.votes.contains_key(first_hash),
            self.add_vote(first, first_hash).validate_vote(second.wire_vote) is Ok,
            !self.add_vote(first, first_hash).votes.contains_key(second_hash),
            first.wire_vote.sender == second.wire_vote.sender,
            first.wire_vote.seq_number == second.wire_vote.seq_number,
        ensures
            ({
                let sender = first.wire_vote.sender;
                let last = self.add_vote(first, first_hash).add_vote(second, second_hash);
                &&& last.panorama[sender.0 as int] is Faulty
                &&& last.evidence.contains_key(sender)
                &&& last.evidence.dom() == self.evidence.dom().insert(sender)
                &&& forall|idx: ValidatorIndex|
                    self.evidence.contains_key(idx) ==> last.evidence[idx] == self.evidence[idx]
            }),
    {
        let sender = first.wire_vote.sender;
        let middle = self.add_vote(first, first_hash);
        let last = middle.add_vote(second, second_hash);
        self.lemma_accepted(first.wire_vote);
        middle.lemma_accepted(second.wire_vote);
        self.lemma_add_vote_panorama_wf(first, first_hash);
        assert(self.obs_linked(sender.0 as int, self.panorama[sender.0 as int]));
        assert(middle.obs_linked(sender.0 as int, middle.panorama[sender.0 as int]));
        assert(last.evidence.dom() =~= self.evidence.dom().insert(sender));
    }

    /// The record of a vote that was added under a new hash holds the wire
    /// vote's panorama, sender and sequence number; a vote with a sequence
    /// number other than 0 cites the stored vote of its sender with the
    /// sequence number before, and its own entry is never absent or faulty.
    pub proof fn law_added_vote(self, swvote: SignedWireVoteView, hash: u64)
        requires
            self.wf(),
            self.validate_vote(swvote.wire_vote) is Ok,
            !self.votes.contains_key(hash),
        ensures
            ({
                let next = self.add_vote(swvote, hash);
                let vote = next.votes[hash];
                &&& next.votes.contains_key(hash)
                &&& vote.panorama == swvote.wire_vote.panorama
                &&& vote.sender == swvote.wire_vote.sender
                &&& vote.seq_number == swvote.wire_vote.seq_number
                &&& vote.seq_number == 0 ==> vote.panorama[vote.sender.0 as int] is Absent
                &&& vote.seq_number != 0 ==> {
                    &&& vote.panorama[vote.sender.0 as int] matches Observation::Correct(prev)
                    &&& next.votes.contains_key(prev)
                    &&& next.votes[prev].sender == vote.sender
                    &&& next.votes[prev].seq_number + 1 == vote.seq_number
                    &&& vote.previous() == Some(prev)
                }
            }),
    {
        let next = self.add_vote(swvote, hash);
        self.lemma_accepted(swvote.wire_vote);
        self.lemma_add_vote_extends(swvote, hash);
        vstd::arithmetic::power2::lemma2_to64();
        if swvote.wire_vote.seq_number != 0 {
            crate::lemmas::lemma_skip_len_pos(swvote.wire_vote.seq_number as nat);
        }
    }

    /// The block of a vote that was added under a new hash stands on the
    /// fork choice of the vote's panorama, one higher than it, or at height
    /// 0 without one; and every block that was stored before is as it was.
    pub proof fn law_added_block(self, swvote: SignedWireVoteView, hash: u64)
        requires
            self.wf(),
            self.validate_vote(swvote.wire_vote) is Ok,
            !self.votes.contains_key(hash),
            swvote.wire_vote.values is Some,
            self.votes.dom().len() <= u64::MAX,
        ensures
            ({
                let next = self.add_vote(swvote, hash);
                let choice = self.fork_choice(swvote.wire_vote.panorama);
                &&& next.blocks.contains_key(hash)
                &&& next.votes[hash].block == hash
                &&& next.blocks[hash].values == swvote.wire_vote.values->Some_0
                &&& next.blocks[hash].parent() == choice
                &&& choice is None ==> next.blocks[hash].height == 0
                &&& choice matches Some(parent) ==> next.blocks.contains_key(parent)
                    && next.blocks[hash].height == next.blocks[parent].height + 1
                &&& forall|earlier: u64| #[trigger]
                    self.blocks.contains_key(earlier) ==> next.blocks.contains_key(earlier)
                        && next.blocks[earlier] == self.blocks[earlier]
            }),
    {
        let next = self.add_vote(swvote, hash);
        let choice = self.fork_choice(swvote.wire_vote.panorama);
        self.lemma_accepted(swvote.wire_vote);
        self.lemma_add_vote_extends(swvote, hash);
        self.lemma_fork_choice(swvote.wire_vote.panorama);
        vstd::arithmetic::power2::lemma2_to64();
        if let Some(parent) = choice {
            assert(self.block_wf(parent));
            crate::lemmas::lemma_skip_len_pos((self.blocks[parent].height + 1) as nat);
            assert(next.blocks[hash].skip_idx[0] == self.nth_parent(parent, 0));
        }
    }

    /// Every entry of the skip index of a new vote is a stored vote of the
    /// vote's sender: entry `i` is the one whose sequence number is `2^i`
    /// less than the new vote's.
    pub proof fn law_new_vote_skip_list(self, wvote: WireVoteView, i: nat)
        requires
            self.wf(),
            self.validate_vote(wvote) is Ok,
            i < self.vote_skip_idx(wvote).len(),
        ensures
            ({
                let entry = self.vote_skip_idx(wvote)[i as int];
                &&& self.votes.contains_key(entry)
                &&& self.votes[entry].sender == wvote.sender
                &&& self.votes[entry].seq_number == wvote.seq_number
                    - vstd::arithmetic::power2::pow2(i)
            }),
    {
        self.lemma_accepted(wvote);
        let prev = wvote.panorama[wvote.sender.0 as int]->Correct_0;
        crate::lemmas::lemma_skip_len_bound(wvote.seq_number as nat, i);
        vstd::arithmetic::power2::lemma_pow2_pos(i);
        self.lemma_nth_previous(prev, (vstd::arithmetic::power2::pow2(i) - 1) as nat);
    }

    /// A valid vote that does not cite the latest vote of its sender makes
    /// the sender faulty and leaves every other observation as it was;
    /// where there was no evidence against the sender, the stored vote of
    /// the sender with the same sequence number and the new vote are
    /// recorded as the evidence, and the evidence against every other
    /// validator is as it was.
    pub proof fn law_equivocation_recorded(self, swvote: SignedWireVoteView, hash: u64, tip: u64)
        requires
            self.wf(),
            self.validate_vote(swvote.wire_vote) is Ok,
            !self.votes.contains_key(hash),
            self.panorama[swvote.wire_vote.sender.0 as int] == Observation::Correct(tip),
            swvote.wire_vote.panorama[swvote.wire_vote.sender.0 as int] != Observation::Correct(
                tip,
            ),
        ensures
            ({
                let wvote = swvote.wire_vote;
                let sender = wvote.sender;
                let next = self.add_vote(swvote, hash);
                let rival = self.find_in_swimlane(tip, wvote.seq_number);
                &&& next.panorama == self.panorama.update(sender.0 as int, Observation::Faulty)
                &&& self.votes.contains_key(rival)
                &&& self.votes[rival].sender == sender
                &&& self.votes[rival].seq_number == wvote.seq_number
                &&& rival != hash
                &&& !self.evidence.contains_key(sender) ==> next.evidence == self.evidence.insert(
                    sender,
                    EvidenceView::Equivocation(self.wire_vote(rival)->Some_0, swvote),
                )
                &&& self.evidence.contains_key(sender) ==> next.evidence == self.evidence
            }),
    {
        self.lemma_rival(swvote.wire_vote, tip);
    }

    /// Where a validator has not been found faulty, a first vote that
    /// continues its swimlane and a second, different vote with the same
    /// sequence number are recorded as the evidence against it.
    pub proof fn law_equivocation_evidence(
        self,
        first: SignedWireVoteView,
        first_hash: u64,
        second: SignedWireVoteView,
        second_hash: u64,
    )
        requires
            self.wf(),
            self.validate_vote(first.wire_vote) is Ok,
            !self.votes.contains_key(first_hash),
            self.add_vote(first, first_hash).validate_vote(second.wire_vote) is Ok,
            !self.add_vote(first, first_hash).votes.contains_key(second_hash),
            first.wire_vote.sender == second.wire_vote.sender,
            first.wire_vote.seq_number == second.wire_vote.seq_number,
            !self.evidence.contains_key(first.wire_vote.sender),
            self.panorama[first.wire_vote.sender.0 as int]
                == first.wire_vote.panorama[first.wire_vote.sender.0 as int],
        ensures
            self.add_vote(first, first_hash).add_vote(second, second_hash).evidence[first.wire_vote.sender]
                == EvidenceView::Equivocation(first, second),
    {
        let sender = first.wire_vote.sender;
        let middle = self.add_vote(first, first_hash);
        self.lemma_accepted(first.wire_vote);
        middle.lemma_accepted(second.wire_vote);
        self.lemma_add_vote_extends(first, first_hash);
        assert(self.obs_linked(sender.0 as int, self.panorama[sender.0 as int]));
        assert(middle.panorama[sender.0 as int] == Observation::Correct(first_hash));
        assert(middle.find_in_swimlane(first_hash, second.wire_vote.seq_number) == first_hash);
        assert(middle.wire_vote(first_hash) == Some(first));
    }
}

} // verus!
