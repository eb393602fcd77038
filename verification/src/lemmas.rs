//! Facts about well-formed states that the operations rest on.

use vstd::prelude::*;
use crate::model::StateView;

verus! {

/// Doubling a positive number adds one entry to its skip index.
pub proof fn lemma_skip_len_double(n: nat)
    requires
        n > 0,
    ensures
        crate::model::skip_len(2 * n) == 1 + crate::model::skip_len(n),
{
    assert((2 * n) % 2 == 0) by (nonlinear_arith);
    assert((2 * n) / 2 == n) by (nonlinear_arith);
}

/// The skip index of `q * 2^i` has `i` entries more than that of `q`.
pub proof fn lemma_skip_len_shift(q: nat, i: nat)
    requires
        q > 0,
    ensures
        crate::model::skip_len(q * vstd::arithmetic::power2::pow2(i)) == i + crate::model::skip_len(
            q,
        ),
    decreases i,
{
    if i == 0 {
        vstd::arithmetic::power2::lemma2_to64();
        assert(q * 1 == q);
    } else {
        let p = vstd::arithmetic::power2::pow2((i - 1) as nat);
        vstd::arithmetic::power2::lemma_pow2_unfold(i);
        vstd::arithmetic::power2::lemma_pow2_pos((i - 1) as nat);
        lemma_skip_len_shift(q, (i - 1) as nat);
        assert(q * (2 * p) == 2 * (q * p)) by (nonlinear_arith);
        assert(q * p > 0) by (nonlinear_arith)
            requires
                q > 0,
                p > 0,
        ;
        lemma_skip_len_double(q * p);
    }
}

/// The skip index of `n` has an entry `i` exactly where `2^i` divides a
/// positive `n`.
pub proof fn lemma_skip_len_divides(n: nat, i: nat)
    ensures
        i < crate::model::skip_len(n) <==> (n > 0 && n % vstd::arithmetic::power2::pow2(i) == 0),
    decreases i,
{
    vstd::arithmetic::power2::lemma2_to64();
    if i == 0 {
        assert(n % 1 == 0);
    } else {
        let p = vstd::arithmetic::power2::pow2((i - 1) as nat);
        vstd::arithmetic::power2::lemma_pow2_unfold(i);
        vstd::arithmetic::power2::lemma_pow2_pos((i - 1) as nat);
        lemma_skip_len_divides(n / 2, (i - 1) as nat);
        if n > 0 {
            vstd::arithmetic::div_mod::lemma_mod_breakdown(n as int, 2, p as int);
            assert(n % (2 * p) == 2 * ((n / 2) % p) + n % 2);
            vstd::arithmetic::div_mod::lemma_mod_bound((n / 2) as int, p as int);
            if n % 2 == 0 && (n / 2) % p == 0 {
                assert(n / 2 > 0);
            }
        }
    }
}

/// An entry `i` of the skip index of `n` spans at most `n`.
pub proof fn lemma_skip_len_bound(n: nat, i: nat)
    requires
        i < crate::model::skip_len(n),
    ensures
        vstd::arithmetic::power2::pow2(i) <= n,
{
    lemma_skip_len_divides(n, i);
    let p = vstd::arithmetic::power2::pow2(i);
    vstd::arithmetic::power2::lemma_pow2_pos(i);
    if n < p {
        vstd::arithmetic::div_mod::lemma_small_mod(n, p);
    }
}

/// A power of two that fits in 64 bits has an exponent below 64.
pub proof fn lemma_pow2_fits(e: nat)
    requires
        vstd::arithmetic::power2::pow2(e) <= u64::MAX,
    ensures
        e < 64,
{
    vstd::arithmetic::power2::lemma2_to64_rest();
    if e > 64 {
        vstd::arithmetic::power2::lemma_pow2_strictly_increases(64, e);
    }
}

/// The skip index of a positive number is not empty, and that of an odd
/// number has one entry.
pub proof fn lemma_skip_len_pos(n: nat)
    requires
        n > 0,
    ensures
        crate::model::skip_len(n) >= 1,
        n % 2 == 1 ==> crate::model::skip_len(n) == 1,
{
}

/// What one round of building a skip index rests on: where `n == q * 2^i`
/// with an even `q`, the number `n - 2^i` is positive and has an entry `i`,
/// and `n` is `q / 2` times `2^(i + 1)`.
pub proof fn lemma_skip_step(n: nat, q: nat, i: nat)
    requires
        q > 0,
        q % 2 == 0,
        n == q * vstd::arithmetic::power2::pow2(i),
    ensures
        vstd::arithmetic::power2::pow2(i) <= n,
        n - vstd::arithmetic::power2::pow2(i) > 0,
        i < crate::model::skip_len((n - vstd::arithmetic::power2::pow2(i)) as nat),
        n == (q / 2) * vstd::arithmetic::power2::pow2(i + 1),
        q / 2 > 0,
        vstd::arithmetic::power2::pow2(i + 1) == 2 * vstd::arithmetic::power2::pow2(i),
        vstd::arithmetic::power2::pow2(i + 1) <= n,
{
    let p = vstd::arithmetic::power2::pow2(i);
    vstd::arithmetic::power2::lemma_pow2_pos(i);
    vstd::arithmetic::power2::lemma_pow2_unfold(i + 1);
    assert(q * p - p == (q - 1) * p) by (nonlinear_arith);
    assert((q - 1) * p > 0) by (nonlinear_arith)
        requires
            q >= 2,
            p > 0,
    ;
    assert(q * p >= p) by (nonlinear_arith)
        requires
            q >= 1,
            p > 0,
    ;
    lemma_skip_len_shift((q - 1) as nat, i);
    lemma_skip_len_pos((q - 1) as nat);
    assert((q / 2) * (2 * p) == q * p) by (nonlinear_arith)
        requires
            q % 2 == 0,
    ;
    assert(2 * p <= q * p) by (nonlinear_arith)
        requires
            q >= 2,
            p > 0,
    ;
}

impl StateView {
    /// A panorama whose references the state holds names only known votes.
    pub proof fn lemma_linked_votes_known(self, pan: Seq<crate::vote::Observation>)
        requires
            self.pan_linked(pan),
        ensures
            self.votes_known(pan),
    {
        assert forall|i: int| 0 <= i < pan.len() implies (#[trigger] pan[i]
            matches crate::vote::Observation::Correct(hash) ==> self.votes.contains_key(hash)) by {
            assert(self.obs_linked(i, pan[i]));
        }
    }

    /// Going `a` steps back and then `b` more is going `a + b` steps back.
    pub proof fn lemma_nth_previous_add(self, hash: u64, a: nat, b: nat)
        ensures
            self.nth_previous(self.nth_previous(hash, a), b) == self.nth_previous(hash, a + b),
        decreases a,
    {
        if a > 0 {
            self.lemma_nth_previous_add(self.votes[hash].skip_idx[0], (a - 1) as nat, b);
            assert(self.nth_previous(hash, a + b) == self.nth_previous(
                self.votes[hash].skip_idx[0],
                (a + b - 1) as nat,
            ));
        }
    }

    /// Going `a` generations up and then `b` more is going `a + b` up.
    pub proof fn lemma_nth_parent_add(self, hash: u64, a: nat, b: nat)
        ensures
            self.nth_parent(self.nth_parent(hash, a), b) == self.nth_parent(hash, a + b),
        decreases a,
    {
        if a > 0 {
            self.lemma_nth_parent_add(self.blocks[hash].skip_idx[0], (a - 1) as nat, b);
            assert(self.nth_parent(hash, a + b) == self.nth_parent(
                self.blocks[hash].skip_idx[0],
                (a + b - 1) as nat,
            ));
        }
    }

    /// In a consistent store, the vote `n` steps back from a stored vote
    /// with sequence number at least `n` is stored, was cast by the same
    /// sender, and has a sequence number smaller by `n`.
    pub proof fn lemma_nth_previous(self, hash: u64, n: nat)
        requires
            self.store_wf(),
            self.votes.contains_key(hash),
            n <= self.votes[hash].seq_number,
        ensures
            self.votes.contains_key(self.nth_previous(hash, n)),
            self.votes[self.nth_previous(hash, n)].sender == self.votes[hash].sender,
            self.votes[self.nth_previous(hash, n)].seq_number == self.votes[hash].seq_number - n,
        decreases n,
    {
        if n > 0 {
            let vote = self.votes[hash];
            assert(self.vote_wf(hash));
            assert(self.obs_linked(vote.sender.0 as int, vote.panorama[vote.sender.0 as int]));
            self.lemma_nth_previous(vote.skip_idx[0], (n - 1) as nat);
        }
    }

    /// In a consistent store, the ancestor `n` generations above a stored
    /// block of height at least `n` is stored and has a height smaller by `n`.
    pub proof fn lemma_nth_parent(self, hash: u64, n: nat)
        requires
            self.store_wf(),
            self.blocks.contains_key(hash),
            n <= self.blocks[hash].height,
        ensures
            self.blocks.contains_key(self.nth_parent(hash, n)),
            self.blocks[self.nth_parent(hash, n)].height == self.blocks[hash].height - n,
        decreases n,
    {
        if n > 0 {
            assert(self.block_wf(hash));
            self.lemma_nth_parent(self.blocks[hash].skip_idx[0], (n - 1) as nat);
        }
    }

    /// Whether `self` holds everything that `old` holds, unchanged: the same
    /// weights, and every vote, block and piece of evidence of `old`.
    pub open spec fn extends(self, old: StateView) -> bool {
        &&& self.weights == old.weights
        &&& old.votes.dom().finite() ==> self.votes.dom().finite()
        &&& forall|hash: u64| #[trigger]
            old.votes.contains_key(hash) ==> self.votes.contains_key(hash) && self.votes[hash]
                == old.votes[hash]
        &&& forall|hash: u64| #[trigger]
            old.blocks.contains_key(hash) ==> self.blocks.contains_key(hash) && self.blocks[hash]
                == old.blocks[hash]
        &&& forall|idx: crate::validators::ValidatorIndex| #[trigger]
            old.evidence.contains_key(idx) ==> self.evidence.contains_key(idx)
                && self.evidence[idx] == old.evidence[idx]
    }

    /// Swimlanes of stored votes do not change when the state grows.
    pub proof fn lemma_extends_nth_previous(self, old: StateView, hash: u64, n: nat)
        requires
            old.store_wf(),
            self.extends(old),
            old.votes.contains_key(hash),
            n <= old.votes[hash].seq_number,
        ensures
            self.nth_previous(hash, n) == old.nth_previous(hash, n),
        decreases n,
    {
        if n > 0 {
            let vote = old.votes[hash];
            assert(old.vote_wf(hash));
            assert(old.obs_linked(vote.sender.0 as int, vote.panorama[vote.sender.0 as int]));
            self.lemma_extends_nth_previous(old, vote.skip_idx[0], (n - 1) as nat);
        }
    }

    /// Ancestries of stored blocks do not change when the state grows.
    pub proof fn lemma_extends_nth_parent(self, old: StateView, hash: u64, n: nat)
        requires
            old.store_wf(),
            self.extends(old),
            old.blocks.contains_key(hash),
            n <= old.blocks[hash].height,
        ensures
            self.nth_parent(hash, n) == old.nth_parent(hash, n),
        decreases n,
    {
        if n > 0 {
            assert(old.block_wf(hash));
            self.lemma_extends_nth_parent(old, old.blocks[hash].skip_idx[0], (n - 1) as nat);
        }
    }

    /// What a panorama refers to stays there when the state grows.
    pub proof fn lemma_extends_pan_linked(self, old: StateView, pan: Seq<crate::vote::Observation>)
        requires
            self.extends(old),
            old.pan_linked(pan),
        ensures
            self.pan_linked(pan),
    {
        assert forall|i: int| 0 <= i < pan.len() implies #[trigger] self.obs_linked(i, pan[i]) by {
            assert(old.obs_linked(i, pan[i]));
        }
    }

    /// A stored vote stays consistent when the state grows, as long as no
    /// block is added under its hash.
    pub proof fn lemma_extends_vote_wf(self, old: StateView, hash: u64)
        requires
            old.store_wf(),
            self.extends(old),
            old.votes.contains_key(hash),
            self.blocks.contains_key(hash) ==> old.blocks.contains_key(hash),
        ensures
            self.vote_wf(hash),
    {
        let vote = old.votes[hash];
        assert(old.vote_wf(hash));
        self.lemma_extends_pan_linked(old, vote.panorama);
        assert(old.obs_linked(vote.sender.0 as int, vote.panorama[vote.sender.0 as int]));
        assert forall|i: int| 0 <= i < vote.skip_idx.len() implies #[trigger] vote.skip_idx[i]
            == self.nth_previous(hash, vstd::arithmetic::power2::pow2(i as nat)) by {
            lemma_skip_len_bound(vote.seq_number as nat, i as nat);
            self.lemma_extends_nth_previous(old, hash, vstd::arithmetic::power2::pow2(i as nat));
        }
    }

    /// A stored block stays consistent when the state grows.
    pub proof fn lemma_extends_block_wf(self, old: StateView, hash: u64)
        requires
            old.store_wf(),
            self.extends(old),
            old.blocks.contains_key(hash),
        ensures
            self.block_wf(hash),
    {
        let block = old.blocks[hash];
        assert(old.block_wf(hash));
        assert(old.votes.dom().subset_of(self.votes.dom()));
        vstd::set_lib::lemma_len_subset(old.votes.dom(), self.votes.dom());
        assert forall|i: int| 0 <= i < block.skip_idx.len() implies #[trigger] block.skip_idx[i]
            == self.nth_parent(hash, vstd::arithmetic::power2::pow2(i as nat)) by {
            lemma_skip_len_bound(block.height as nat, i as nat);
            self.lemma_extends_nth_parent(old, hash, vstd::arithmetic::power2::pow2(i as nat));
        }
    }

    /// Whether a panorama sees a stored vote does not change when the state grows.
    pub proof fn lemma_extends_sees_correct(
        self,
        old: StateView,
        pan: Seq<crate::vote::Observation>,
        hash: u64,
    )
        requires
            old.store_wf(),
            self.extends(old),
            old.votes.contains_key(hash),
            pan.len() == old.weights.len(),
            old.votes_known(pan),
        ensures
            self.sees_correct(pan, hash) == old.sees_correct(pan, hash),
    {
        let vote = old.votes[hash];
        assert(old.vote_wf(hash));
        if let crate::vote::Observation::Correct(latest) = pan[vote.sender.0 as int] {
            if old.votes[latest].seq_number >= vote.seq_number {
                self.lemma_extends_nth_previous(
                    old,
                    latest,
                    (old.votes[latest].seq_number - vote.seq_number) as nat,
                );
            }
        }
    }

    /// How two observations of stored votes compare does not change when
    /// the state grows.
    pub proof fn lemma_extends_obs_geq(
        self,
        old: StateView,
        obs_l: crate::vote::Observation,
        obs_r: crate::vote::Observation,
    )
        requires
            old.store_wf(),
            self.extends(old),
            obs_l matches crate::vote::Observation::Correct(hash) ==> old.votes.contains_key(hash),
            obs_r matches crate::vote::Observation::Correct(hash) ==> old.votes.contains_key(hash),
        ensures
            self.obs_geq(obs_l, obs_r) == old.obs_geq(obs_l, obs_r),
    {
        if let crate::vote::Observation::Correct(hash_l) = obs_l {
            if let crate::vote::Observation::Correct(hash_r) = obs_r {
                assert(old.vote_wf(hash_l));
                old.lemma_linked_votes_known(old.votes[hash_l].panorama);
                self.lemma_extends_sees_correct(old, old.votes[hash_l].panorama, hash_r);
            }
        }
    }

    /// A panorama that is valid stays valid when the state grows.
    pub proof fn lemma_extends_is_panorama_valid(
        self,
        old: StateView,
        pan: Seq<crate::vote::Observation>,
    )
        requires
            old.store_wf(),
            self.extends(old),
            old.is_panorama_valid(pan),
        ensures
            self.is_panorama_valid(pan),
    {
        self.lemma_extends_pan_linked(old, pan);
        old.lemma_linked_votes_known(pan);
        assert forall|i: int| 0 <= i < pan.len() implies (#[trigger] pan[i]
            matches crate::vote::Observation::Correct(hash) ==> self.panorama_geq(
            pan,
            self.votes[hash].panorama,
        )) by {
            if let crate::vote::Observation::Correct(hash) = pan[i] {
                let seen = old.votes[hash].panorama;
                assert(old.obs_linked(i, pan[i]));
                assert(old.vote_wf(hash));
                old.lemma_linked_votes_known(seen);
                assert(old.panorama_geq(pan, seen));
                assert forall|j: int| 0 <= j < pan.len() && j < seen.len() implies #[trigger] self.obs_geq(
                    pan[j],
                    seen[j],
                ) by {
                    assert(old.obs_geq(pan[j], seen[j]));
                    self.lemma_extends_obs_geq(old, pan[j], seen[j]);
                }
            }
        }
    }

    /// The panoramas of the stored votes stay valid when the state grows.
    pub proof fn lemma_extends_votes_valid(self, old: StateView, hash: u64)
        requires
            old.store_wf(),
            old.votes_valid(),
            self.extends(old),
            old.votes.contains_key(hash),
        ensures
            self.is_panorama_valid(self.votes[hash].panorama),
    {
        assert(old.is_panorama_valid(old.votes[hash].panorama));
        self.lemma_extends_is_panorama_valid(old, old.votes[hash].panorama);
    }

    /// Recording evidence keeps a well-formed state well formed.
    pub proof fn lemma_add_evidence_wf(self, evidence: crate::evidence::EvidenceView)
        requires
            self.store_wf(),
        ensures
            self.add_evidence(evidence).store_wf(),
            self.add_evidence(evidence).extends(self),
            self.panorama_wf() ==> self.add_evidence(evidence).panorama_wf(),
            self.votes_valid() ==> self.add_evidence(evidence).votes_valid(),
    {
        let next = self.add_evidence(evidence);
        assert(next.extends(self));
        if self.votes_valid() {
            assert forall|hash: u64| next.votes.contains_key(hash) implies next.is_panorama_valid(
                (#[trigger] next.votes[hash]).panorama,
            ) by {
                next.lemma_extends_votes_valid(self, hash);
            }
        }
        assert forall|hash: u64| next.votes.contains_key(hash) implies #[trigger] next.vote_wf(
            hash,
        ) by {
            next.lemma_extends_vote_wf(self, hash);
        }
        assert forall|hash: u64| next.blocks.contains_key(hash) implies #[trigger] next.block_wf(
            hash,
        ) by {
            next.lemma_extends_block_wf(self, hash);
        }
        if self.panorama_wf() {
            next.lemma_extends_pan_linked(self, self.panorama);
            assert forall|hash: u64| next.votes.contains_key(hash) implies #[trigger] next.in_lane(
                hash,
            ) by {
                assert(self.in_lane(hash));
                let vote = self.votes[hash];
                if let crate::vote::Observation::Correct(tip) = self.panorama[vote.sender.0 as int] {
                    assert(self.vote_wf(hash));
                    assert(self.obs_linked(vote.sender.0 as int, self.panorama[vote.sender.0 as int]));
                    next.lemma_extends_nth_previous(
                        self,
                        tip,
                        (self.votes[tip].seq_number - vote.seq_number) as nat,
                    );
                }
            }
        }
    }

    /// What a state knows of a wire vote that it accepts.
    pub proof fn lemma_accepted(self, wvote: crate::vertex::WireVoteView)
        requires
            self.validate_vote(wvote) is Ok,
        ensures
            wvote.sender.0 < self.weights.len(),
            self.pan_linked(wvote.panorama),
            self.votes_known(wvote.panorama),
            wvote.values is None ==> !crate::vote::spec_is_empty(wvote.panorama),
            match wvote.panorama[wvote.sender.0 as int] {
                crate::vote::Observation::Absent => wvote.seq_number == 0,
                crate::vote::Observation::Correct(prev) => {
                    &&& self.votes.contains_key(prev)
                    &&& self.votes[prev].sender == wvote.sender
                    &&& self.votes[prev].seq_number + 1 == wvote.seq_number
                },
                crate::vote::Observation::Faulty => false,
            },
    {
        self.lemma_linked_votes_known(wvote.panorama);
        assert(self.obs_linked(wvote.sender.0 as int, wvote.panorama[wvote.sender.0 as int]));
    }

    /// In a well-formed state, a vote that an accepted wire vote cites as
    /// its sender's previous vote is the sender's latest vote or one behind
    /// it; so the state holds a vote of that sender with the new vote's
    /// sequence number whenever the two differ.
    pub proof fn lemma_rival(self, wvote: crate::vertex::WireVoteView, tip: u64)
        requires
            self.wf(),
            self.validate_vote(wvote) is Ok,
            self.panorama[wvote.sender.0 as int] == crate::vote::Observation::Correct(tip),
            wvote.panorama[wvote.sender.0 as int] != crate::vote::Observation::Correct(tip),
        ensures
            self.votes.contains_key(tip),
            self.votes[tip].sender == wvote.sender,
            wvote.seq_number <= self.votes[tip].seq_number,
            self.votes.contains_key(self.find_in_swimlane(tip, wvote.seq_number)),
            self.votes[self.find_in_swimlane(tip, wvote.seq_number)].sender == wvote.sender,
            self.votes[self.find_in_swimlane(tip, wvote.seq_number)].seq_number
                == wvote.seq_number,
    {
        self.lemma_accepted(wvote);
        let sender = wvote.sender.0 as int;
        assert(self.obs_linked(sender, self.panorama[sender]));
        if let crate::vote::Observation::Correct(prev) = wvote.panorama[sender] {
            assert(self.in_lane(prev));
            if self.votes[prev].seq_number == self.votes[tip].seq_number {
                assert(self.nth_previous(tip, 0) == tip);
            }
        }
        self.lemma_nth_previous(tip, (self.votes[tip].seq_number - wvote.seq_number) as nat);
    }

    /// Adding an accepted vote under a new hash leaves everything that the
    /// state held in place.
    pub proof fn lemma_add_vote_extends(self, swvote: crate::vertex::SignedWireVoteView, hash: u64)
        requires
            self.store_wf(),
            !self.votes.contains_key(hash),
        ensures
            self.add_vote(swvote, hash).extends(self),
            !self.blocks.contains_key(hash),
            self.add_vote(swvote, hash).votes.dom().len() == self.votes.dom().len() + 1,
    {
        let next = self.add_vote(swvote, hash);
        if self.blocks.contains_key(hash) {
            assert(self.block_wf(hash));
        }
        assert(next.votes.dom() =~= self.votes.dom().insert(hash));
    }

    /// Adding an accepted vote under a new hash keeps the stores consistent.
    pub proof fn lemma_add_vote_store_wf(
        self,
        swvote: crate::vertex::SignedWireVoteView,
        hash: u64,
    )
        requires
            self.wf(),
            self.validate_vote(swvote.wire_vote) is Ok,
            !self.votes.contains_key(hash),
            self.votes.dom().len() <= u64::MAX,
        ensures
            self.add_vote(swvote, hash).store_wf(),
    {
        let wvote = swvote.wire_vote;
        let sender = wvote.sender.0 as int;
        let next = self.add_vote(swvote, hash);
        let fork_choice = self.fork_choice(wvote.panorama);
        self.lemma_add_vote_extends(swvote, hash);
        self.lemma_accepted(wvote);
        self.lemma_fork_choice(wvote.panorama);
        if wvote.values is None {
            let i = choose|i: int| 0 <= i < wvote.panorama.len() && wvote.panorama[i] is Correct;
            assert(wvote.panorama[i] is Correct);
        }
        assert forall|h: u64| next.votes.contains_key(h) implies #[trigger] next.vote_wf(h) by {
            if h != hash {
                next.lemma_extends_vote_wf(self, h);
            } else {
                let vote = next.votes[hash];
                next.lemma_extends_pan_linked(self, wvote.panorama);
                vstd::arithmetic::power2::lemma2_to64();
                if let crate::vote::Observation::Correct(prev) = wvote.panorama[sender] {
                    lemma_skip_len_pos(wvote.seq_number as nat);
                    assert(vote.skip_idx[0] == self.nth_previous(prev, 0));
                    assert forall|i: int| 0 <= i < vote.skip_idx.len() implies #[trigger] vote.skip_idx[i]
                        == next.nth_previous(hash, vstd::arithmetic::power2::pow2(i as nat)) by {
                        let step = vstd::arithmetic::power2::pow2(i as nat);
                        lemma_skip_len_bound(wvote.seq_number as nat, i as nat);
                        vstd::arithmetic::power2::lemma_pow2_pos(i as nat);
                        next.lemma_extends_nth_previous(self, prev, (step - 1) as nat);
                    }
                }
                assert(next.seq_rule(hash));
                assert(next.vote_skip_rule(hash));
            }
        }
        assert forall|h: u64| next.blocks.contains_key(h) implies #[trigger] next.block_wf(h) by {
            if self.blocks.contains_key(h) {
                next.lemma_extends_block_wf(self, h);
            } else {
                assert(h == hash);
                let block = next.blocks[hash];
                vstd::arithmetic::power2::lemma2_to64();
                if let Some(parent) = fork_choice {
                    assert(self.block_wf(parent));
                    lemma_skip_len_pos(block.height as nat);
                    assert(block.skip_idx[0] == self.nth_parent(parent, 0));
                    assert forall|i: int| 0 <= i < block.skip_idx.len() implies #[trigger] block.skip_idx[i]
                        == next.nth_parent(hash, vstd::arithmetic::power2::pow2(i as nat)) by {
                        let step = vstd::arithmetic::power2::pow2(i as nat);
                        lemma_skip_len_bound(block.height as nat, i as nat);
                        vstd::arithmetic::power2::lemma_pow2_pos(i as nat);
                        next.lemma_extends_nth_parent(self, parent, (step - 1) as nat);
                    }
                }
            }
        }
        assert forall|idx: crate::validators::ValidatorIndex| #[trigger]
            next.evidence.contains_key(idx) implies next.evidence[idx].perpetrator() == idx by {
            if !self.evidence.contains_key(idx) {
                let tip = self.panorama[sender]->Correct_0;
                self.lemma_rival(wvote, tip);
            }
        }
    }

    /// Adding an accepted vote under a new hash keeps the state's panorama
    /// consistent with the stores.
    pub proof fn lemma_add_vote_panorama_wf(
        self,
        swvote: crate::vertex::SignedWireVoteView,
        hash: u64,
    )
        requires
            self.wf(),
            self.validate_vote(swvote.wire_vote) is Ok,
            !self.votes.contains_key(hash),
        ensures
            self.add_vote(swvote, hash).panorama_wf(),
    {
        let wvote = swvote.wire_vote;
        let sender = wvote.sender.0 as int;
        let next = self.add_vote(swvote, hash);
        let stored = self.panorama[sender];
        self.lemma_add_vote_extends(swvote, hash);
        self.lemma_accepted(wvote);
        vstd::arithmetic::power2::lemma2_to64();
        assert(self.obs_linked(sender, stored));
        if stored is Absent {
            if let crate::vote::Observation::Correct(prev) = wvote.panorama[sender] {
                assert(self.in_lane(prev));
            }
        }
        assert forall|i: int| 0 <= i < next.panorama.len() implies #[trigger] next.obs_linked(
            i,
            next.panorama[i],
        ) by {
            if i != sender {
                assert(self.obs_linked(i, self.panorama[i]));
            }
        }
        assert forall|h: u64| next.votes.contains_key(h) implies #[trigger] next.in_lane(h) by {
            let vote = next.votes[h];
            if h != hash {
                assert(self.in_lane(h));
                assert(self.vote_wf(h));
                let lane = vote.sender.0 as int;
                if let crate::vote::Observation::Correct(tip) = self.panorama[lane] {
                    assert(self.obs_linked(lane, self.panorama[lane]));
                    let back = (self.votes[tip].seq_number - vote.seq_number) as nat;
                    next.lemma_extends_nth_previous(self, tip, back);
                    if lane == sender && next.panorama[lane] is Correct {
                        assert(next.nth_previous(hash, back + 1) == next.nth_previous(tip, back));
                    }
                }
            } else {
                assert(next.nth_previous(hash, 0) == hash);
            }
        }
    }

    /// A state that differs from one with consistent stores only by
    /// additional evidence has consistent stores too.
    pub proof fn lemma_more_evidence_store_wf(self, old: StateView)
        requires
            old.store_wf(),
            self.extends(old),
            self.same_store(old),
            forall|idx: crate::validators::ValidatorIndex| #[trigger]
                self.evidence.contains_key(idx) ==> self.evidence[idx].perpetrator() == idx,
        ensures
            self.store_wf(),
    {
        assert forall|hash: u64| self.votes.contains_key(hash) implies #[trigger] self.vote_wf(
            hash,
        ) by {
            self.lemma_extends_vote_wf(old, hash);
        }
        assert forall|hash: u64| self.blocks.contains_key(hash) implies #[trigger] self.block_wf(
            hash,
        ) by {
            self.lemma_extends_block_wf(old, hash);
        }
    }

    /// The records of a new vote and of a new block depend on the stored
    /// votes and blocks alone.
    pub proof fn lemma_same_store_records(
        self,
        other: StateView,
        swvote: crate::vertex::SignedWireVoteView,
        hash: u64,
        fork_choice: Option<u64>,
        values: Seq<u64>,
    )
        requires
            self.same_store(other),
        ensures
            self.new_vote(swvote, hash, fork_choice) == other.new_vote(swvote, hash, fork_choice),
            self.new_block(fork_choice, values) == other.new_block(fork_choice, values),
    {
        let wvote = swvote.wire_vote;
        let lane = self.vote_skip_idx(wvote);
        if let crate::vote::Observation::Correct(prev) = wvote.panorama[wvote.sender.0 as int] {
            assert forall|i: int| 0 <= i < lane.len() implies #[trigger] lane[i]
                == other.vote_skip_idx(wvote)[i] by {
                self.lemma_same_store_nth_previous(
                    other,
                    prev,
                    (vstd::arithmetic::power2::pow2(i as nat) - 1) as nat,
                );
            }
        }
        assert(lane =~= other.vote_skip_idx(wvote));
        let ancestry = self.block_skip_idx(fork_choice);
        if let Some(parent) = fork_choice {
            assert forall|i: int| 0 <= i < ancestry.len() implies #[trigger] ancestry[i]
                == other.block_skip_idx(fork_choice)[i] by {
                self.lemma_same_store_nth_parent(
                    other,
                    parent,
                    (vstd::arithmetic::power2::pow2(i as nat) - 1) as nat,
                );
            }
        }
        assert(self.block_skip_idx(fork_choice) =~= other.block_skip_idx(fork_choice));
    }

    /// Adding an accepted vote under a new hash keeps the panoramas of the
    /// stored votes valid.
    pub proof fn lemma_add_vote_votes_valid(
        self,
        swvote: crate::vertex::SignedWireVoteView,
        hash: u64,
    )
        requires
            self.wf(),
            self.validate_vote(swvote.wire_vote) is Ok,
            !self.votes.contains_key(hash),
        ensures
            self.add_vote(swvote, hash).votes_valid(),
    {
        let next = self.add_vote(swvote, hash);
        self.lemma_add_vote_extends(swvote, hash);
        assert forall|h: u64| next.votes.contains_key(h) implies next.is_panorama_valid(
            (#[trigger] next.votes[h]).panorama,
        ) by {
            if h == hash {
                next.lemma_extends_is_panorama_valid(self, swvote.wire_vote.panorama);
            } else {
                next.lemma_extends_votes_valid(self, h);
            }
        }
    }
}

} // verus!
