//! Observations, panoramas and stored votes.

use vstd::prelude::*;
use crate::state::State;
use crate::traits::Context;
use crate::validators::ValidatorIndex;
use crate::vertex::SignedWireVote;

verus! {

/// The observed behavior of a validator at some point in time.
#[derive(Clone, Copy, Debug, PartialEq, Eq, Structural)]
pub enum Observation {
    /// No vote by that validator was observed yet.
    Absent,
    /// The validator's latest vote.
    Correct(u64),
    /// The validator has been seen equivocating.
    Faulty,
}

impl Observation {
    /// Returns the vote hash, if this is a correct observation.
    pub fn correct(&self) -> (r: Option<u64>)
        ensures
            r == self.spec_correct(),
    {
        match self {
            Observation::Absent | Observation::Faulty => None,
            Observation::Correct(hash) => Some(*hash),
        }
    }

    /// The vote hash of a correct observation.
    pub open spec fn spec_correct(self) -> Option<u64> {
        match self {
            Observation::Correct(hash) => Some(hash),
            _ => None,
        }
    }

    /// Whether this observation names a vote.
    pub fn is_correct(&self) -> (r: bool)
        ensures
            r == (self is Correct),
    {
        match self {
            Observation::Absent | Observation::Faulty => false,
            Observation::Correct(_) => true,
        }
    }
}

/// The observed behavior of all validators at some point in time: one
/// observation per validator, in index order.
#[derive(Debug, PartialEq, Eq)]
pub struct Panorama(pub Vec<Observation>);

impl View for Panorama {
    type V = Seq<Observation>;

    open spec fn view(&self) -> Seq<Observation> {
        self.0@
    }
}

/// Whether no entry of `pan` is a correct observation.
pub open spec fn spec_is_empty(pan: Seq<Observation>) -> bool {
    forall|i: int| 0 <= i < pan.len() ==> !(#[trigger] pan[i] is Correct)
}

/// The indexed observations of `pan`, in index order.
pub open spec fn spec_enumerate(pan: Seq<Observation>) -> Seq<(ValidatorIndex, Observation)> {
    Seq::new(pan.len(), |i: int| (ValidatorIndex(i as u32), pan[i]))
}

/// The indexed vote hashes of the correct observations among the first `n`
/// entries of `pan`, in index order.
pub open spec fn spec_enumerate_correct(pan: Seq<Observation>, n: nat) -> Seq<(ValidatorIndex, u64)>
    decreases n,
{
    if n == 0 {
        Seq::empty()
    } else {
        let rest = spec_enumerate_correct(pan, (n - 1) as nat);
        match pan[n - 1] {
            Observation::Correct(hash) => rest.push((ValidatorIndex((n - 1) as u32), hash)),
            _ => rest,
        }
    }
}

impl Clone for Panorama {
    fn clone(&self) -> (r: Self)
        ensures
            r@ == self@,
    {
        let mut obs: Vec<Observation> = Vec::new();
        let mut i: usize = 0;
        while i < self.0.len()
            invariant
                i <= self.0.len(),
                obs@ == self.0@.take(i as int),
            decreases self.0.len() - i,
        {
            obs.push(self.0[i]);
            assert(self.0@.take(i + 1) == self.0@.take(i as int).push(self.0@[i as int]));
            i += 1;
        }
        assert(self.0@.take(self.0.len() as int) == self.0@);
        Panorama(obs)
    }
}

impl Panorama {
    /// Creates a new, empty panorama.
    pub fn new(num_validators: usize) -> (r: Panorama)
        ensures
            r@.len() == num_validators,
            forall|i: int| 0 <= i < num_validators ==> r@[i] == Observation::Absent,
    {
        let mut obs: Vec<Observation> = Vec::new();
        let mut i: usize = 0;
        while i < num_validators
            invariant
                i <= num_validators,
                obs@.len() == i,
                forall|j: int| 0 <= j < i ==> obs@[j] == Observation::Absent,
            decreases num_validators - i,
        {
            obs.push(Observation::Absent);
            i += 1;
        }
        Panorama(obs)
    }

    /// Returns the observation for the given validator.
    pub fn get(&self, idx: ValidatorIndex) -> (r: &Observation)
        requires
            idx.0 < self@.len(),
        ensures
            *r == self@[idx.0 as int],
    {
        &self.0[idx.0 as usize]
    }

    /// Returns `true` if there is no correct observation yet.
    pub fn is_empty(&self) -> (r: bool)
        ensures
            r == spec_is_empty(self@),
    {
        let mut i: usize = 0;
        while i < self.0.len()
            invariant
                i <= self.0.len(),
                forall|j: int| 0 <= j < i ==> !(#[trigger] self@[j] is Correct),
            decreases self.0.len() - i,
        {
            if self.0[i].is_correct() {
                return false;
            }
            i += 1;
        }
        true
    }

    /// Returns all observations with their validator index, by index.
    pub fn enumerate(&self) -> (r: Vec<(ValidatorIndex, Observation)>)
        requires
            self@.len() <= u32::MAX,
        ensures
            r@ == spec_enumerate(self@),
    {
        let mut out: Vec<(ValidatorIndex, Observation)> = Vec::new();
        let mut i: usize = 0;
        while i < self.0.len()
            invariant
                i <= self.0.len(),
                self@.len() <= u32::MAX,
                out@ == spec_enumerate(self@).take(i as int),
            decreases self.0.len() - i,
        {
            out.push((ValidatorIndex(i as u32), self.0[i]));
            assert(spec_enumerate(self@).take(i + 1) == spec_enumerate(self@).take(i as int).push(
                spec_enumerate(self@)[i as int],
            ));
            i += 1;
        }
        assert(spec_enumerate(self@).take(self.0.len() as int) == spec_enumerate(self@));
        out
    }

    /// Returns all correct latest votes with their validator index, by index.
    pub fn enumerate_correct(&self) -> (r: Vec<(ValidatorIndex, u64)>)
        requires
            self@.len() <= u32::MAX,
        ensures
            r@ == spec_enumerate_correct(self@, self@.len()),
    {
        let mut out: Vec<(ValidatorIndex, u64)> = Vec::new();
        let mut i: usize = 0;
        while i < self.0.len()
            invariant
                i <= self.0.len(),
                self@.len() <= u32::MAX,
                out@ == spec_enumerate_correct(self@, i as nat),
            decreases self.0.len() - i,
        {
            if let Some(hash) = self.0[i].correct() {
                out.push((ValidatorIndex(i as u32), hash));
            }
            i += 1;
        }
        out
    }

    /// Replaces the observation for validator `idx`.
    pub fn update(&mut self, idx: ValidatorIndex, obs: Observation)
        requires
            idx.0 < old(self)@.len(),
        ensures
            final(self)@ == old(self)@.update(idx.0 as int, obs),
    {
        self.0[idx.0 as usize] = obs;
    }
}

/// The mathematical content of a stored [`Vote`].
pub struct VoteView {
    pub panorama: Seq<Observation>,
    pub seq_number: u64,
    pub sender: ValidatorIndex,
    pub block: u64,
    pub skip_idx: Seq<u64>,
    pub instant: u64,
    pub signature: u64,
}

impl VoteView {
    /// The sender's previous vote: the first entry of the skip index.
    pub open spec fn previous(self) -> Option<u64> {
        if self.skip_idx.len() > 0 {
            Some(self.skip_idx[0])
        } else {
            None
        }
    }
}

/// A vote as the protocol state stores it.
#[derive(Debug, PartialEq, Eq)]
pub struct Vote {
    /// The list of latest messages and faults observed by the sender of this message.
    pub panorama: Panorama,
    /// The number of earlier messages by the same sender.
    pub seq_number: u64,
    /// The validator who created and sent this vote.
    pub sender: ValidatorIndex,
    /// The block this is a vote for. Either it or its parent must be the fork choice.
    pub block: u64,
    /// A skip list index of the sender's swimlane, i.e. the previous vote by the same sender.
    ///
    /// For every `p = 1 << i` that divides `seq_number`, this contains an `i`-th entry pointing to
    /// the older vote with `seq_number - p`.
    pub skip_idx: Vec<u64>,
    /// This vote's instant, in milliseconds since the epoch.
    pub instant: u64,
    /// The signature of the signed wire vote this was made from.
    pub signature: u64,
}

impl View for Vote {
    type V = VoteView;

    open spec fn view(&self) -> VoteView {
        VoteView {
            panorama: self.panorama@,
            seq_number: self.seq_number,
            sender: self.sender,
            block: self.block,
            skip_idx: self.skip_idx@,
            instant: self.instant,
            signature: self.signature,
        }
    }
}

impl Vote {
    /// Creates a new `Vote` from the signed wire vote, and returns the values if it contained any.
    /// Values must be stored as a block, with the same hash.
    pub fn new<C: Context>(
        swvote: SignedWireVote,
        fork_choice: Option<u64>,
        state: &State<C>,
    ) -> (r: (Vote, Option<Vec<u64>>))
        requires
            state@.store_wf(),
            swvote@.wire_vote.sender.0 < swvote@.wire_vote.panorama.len(),
            swvote@.wire_vote.panorama[swvote@.wire_vote.sender.0 as int] matches Observation::Correct(
                prev,
            ) ==> state@.votes.contains_key(prev) && state@.votes[prev].seq_number + 1
                == swvote@.wire_vote.seq_number,
            swvote@.wire_vote.values is None ==> fork_choice is Some,
        ensures
            r.0@ == state@.new_vote(swvote@, swvote@.wire_vote.hash::<C>(), fork_choice),
            match r.1 {
                Some(values) => swvote@.wire_vote.values == Some(values@),
                None => swvote@.wire_vote.values is None,
            },
    {
        let block = if swvote.wire_vote.values.is_some() {
            swvote.wire_vote.hash::<C>()  // A vote with a new block votes for itself.
        } else {
            // If the vote didn't introduce a new block, it votes for the fork choice itself.
            fork_choice.unwrap()
        };
        let mut skip_idx: Vec<u64> = Vec::new();
        if let Some(hash) = swvote.wire_vote.panorama.get(swvote.wire_vote.sender).correct() {
            skip_idx.push(hash);
            let seq_number = swvote.wire_vote.seq_number;
            let mut quotient = seq_number;
            let mut i: usize = 0;
            proof {
                vstd::arithmetic::power2::lemma2_to64();
                assert(skip_idx@[0] == state@.nth_previous(hash, 0));
            }
            while quotient % 2 == 0
                invariant
                    state@.store_wf(),
                    state@.votes.contains_key(hash),
                    state@.votes[hash].seq_number + 1 == seq_number,
                    quotient >= 1,
                    seq_number == quotient * vstd::arithmetic::power2::pow2(i as nat),
                    skip_idx@.len() == i + 1,
                    forall|j: int|
                        0 <= j <= i ==> #[trigger] skip_idx@[j] == state@.nth_previous(
                            hash,
                            (vstd::arithmetic::power2::pow2(j as nat) - 1) as nat,
                        ),
                decreases quotient,
            {
                proof {
                    let step = vstd::arithmetic::power2::pow2(i as nat);
                    crate::lemmas::lemma_skip_step(seq_number as nat, quotient as nat, i as nat);
                    crate::lemmas::lemma_pow2_fits((i + 1) as nat);
                    state@.lemma_nth_previous(hash, (step - 1) as nat);
                    assert(state@.vote_wf(skip_idx@[i as int]));
                    state@.lemma_nth_previous_add(hash, (step - 1) as nat, step);
                }
                let old_vote = state.vote(skip_idx[i]);
                skip_idx.push(old_vote.skip_idx[i]);
                quotient = quotient / 2;
                i += 1;
            }
            proof {
                crate::lemmas::lemma_skip_len_shift(quotient as nat, i as nat);
                crate::lemmas::lemma_skip_len_pos(quotient as nat);
                assert(skip_idx@ =~= state@.vote_skip_idx(swvote@.wire_vote));
            }
        }
        let vote = Vote {
            panorama: swvote.wire_vote.panorama,
            seq_number: swvote.wire_vote.seq_number,
            sender: swvote.wire_vote.sender,
            block,
            skip_idx,
            instant: swvote.wire_vote.instant,
            signature: swvote.signature,
        };
        (vote, swvote.wire_vote.values)
    }

    /// Returns the sender's previous message.
    pub fn previous(&self) -> (r: Option<u64>)
        ensures
            r == self@.previous(),
    {
        if self.skip_idx.len() > 0 {
            Some(self.skip_idx[0])
        } else {
            None
        }
    }
}

} // verus!
