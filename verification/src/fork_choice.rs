//! What holds of the fork choice.

use vstd::prelude::*;
use crate::model::StateView;
use crate::tallies::TallyEntry;
use crate::vote::Observation;

verus! {

impl StateView {
    /// Whether two states have the same weights, votes and blocks.
    pub open spec fn same_store(self, other: StateView) -> bool {
        &&& self.weights == other.weights
        &&& self.votes == other.votes
        &&& self.blocks == other.blocks
    }

    /// Swimlanes depend on the votes alone.
    pub proof fn lemma_same_store_nth_previous(self, other: StateView, hash: u64, n: nat)
        requires
            self.votes == other.votes,
        ensures
            self.nth_previous(hash, n) == other.nth_previous(hash, n),
        decreases n,
    {
        if n > 0 {
            self.lemma_same_store_nth_previous(other, self.votes[hash].skip_idx[0], (n - 1) as nat);
        }
    }

    /// Ancestries depend on the blocks alone.
    pub proof fn lemma_same_store_nth_parent(self, other: StateView, hash: u64, n: nat)
        requires
            self.blocks == other.blocks,
        ensures
            self.nth_parent(hash, n) == other.nth_parent(hash, n),
        decreases n,
    {
        if n > 0 {
            self.lemma_same_store_nth_parent(other, self.blocks[hash].skip_idx[0], (n - 1) as nat);
        }
    }

    /// Scores depend on the blocks alone.
    pub proof fn lemma_same_store_score(
        self,
        other: StateView,
        entries: Seq<TallyEntry>,
        level: u64,
        bhash: u64,
    )
        requires
            self.blocks == other.blocks,
        ensures
            self.score(entries, level, bhash) == other.score(entries, level, bhash),
        decreases entries.len(),
    {
        if entries.len() > 0 {
            self.lemma_same_store_score(other, entries.drop_last(), level, bhash);
            self.lemma_same_store_nth_parent(
                other,
                entries.last().bhash,
                (entries.last().height - level) as nat,
            );
        }
    }

    /// The selection at a level depends on the blocks alone.
    pub proof fn lemma_same_store_best_upto(
        self,
        other: StateView,
        entries: Seq<TallyEntry>,
        level: u64,
        n: nat,
    )
        requires
            self.blocks == other.blocks,
        ensures
            self.best_upto(entries, level, n) == other.best_upto(entries, level, n),
        decreases n,
    {
        let last = self.entry_block_at(entries[n - 1], level);
        self.lemma_same_store_nth_parent(
            other,
            entries[n - 1].bhash,
            (entries[n - 1].height - level) as nat,
        );
        if n > 1 {
            self.lemma_same_store_best_upto(other, entries, level, (n - 1) as nat);
            let rest = self.best_upto(entries, level, (n - 1) as nat);
            self.lemma_same_store_score(other, entries, level, last);
            self.lemma_same_store_score(other, entries, level, rest);
        }
    }

    /// The votes kept above a selected block depend on the blocks alone.
    pub proof fn lemma_same_store_descendants(
        self,
        other: StateView,
        entries: Seq<TallyEntry>,
        level: u64,
        bhash: u64,
    )
        requires
            self.blocks == other.blocks,
        ensures
            self.descendants(entries, level, bhash) == other.descendants(entries, level, bhash),
        decreases entries.len(),
    {
        if entries.len() > 0 {
            self.lemma_same_store_descendants(other, entries.drop_last(), level, bhash);
            self.lemma_same_store_nth_parent(
                other,
                entries.last().bhash,
                (entries.last().height - level) as nat,
            );
        }
    }

    /// The choice among given entries depends on the blocks alone.
    pub proof fn lemma_same_store_ghost_choice(
        self,
        other: StateView,
        entries: Seq<TallyEntry>,
        level: u64,
    )
        requires
            self.blocks == other.blocks,
        ensures
            self.ghost_choice(entries, level) == other.ghost_choice(entries, level),
        decreases u64::MAX - level,
    {
        if entries.len() > 0 {
            let selected = self.best(entries, level);
            self.lemma_same_store_best_upto(other, entries, level, entries.len());
            self.lemma_same_store_descendants(other, entries, level, selected);
            let rest = self.descendants(entries, level, selected);
            if rest.len() > 0 && level < u64::MAX {
                self.lemma_same_store_ghost_choice(other, rest, (level + 1) as u64);
            }
        }
    }

    /// The entries of a panorama depend on the weights, votes and blocks alone.
    pub proof fn lemma_same_store_tally_entries(
        self,
        other: StateView,
        pan: Seq<Observation>,
        n: nat,
    )
        requires
            self.same_store(other),
        ensures
            self.tally_entries(pan, n) == other.tally_entries(pan, n),
        decreases n,
    {
        if n > 0 {
            self.lemma_same_store_tally_entries(other, pan, (n - 1) as nat);
        }
    }

    /// The fork choice is a function of the weights, the panorama and the
    /// stored votes and blocks: two states that agree on these give the
    /// same choice, whatever they have observed and whatever evidence they
    /// hold.
    pub proof fn law_fork_choice_deterministic(self, other: StateView, pan: Seq<Observation>)
        requires
            self.same_store(other),
        ensures
            self.fork_choice(pan) == other.fork_choice(pan),
    {
        let n = if pan.len() < self.weights.len() {
            pan.len()
        } else {
            self.weights.len()
        };
        self.lemma_same_store_tally_entries(other, pan, n);
        self.lemma_same_store_ghost_choice(other, self.tally_entries(pan, n), 0);
    }

    /// The entries of a panorama whose votes are stored name stored blocks,
    /// and there are some exactly if the panorama names a vote.
    pub proof fn lemma_tally_entries(self, pan: Seq<Observation>, n: nat)
        requires
            self.store_wf(),
            self.votes_known(pan),
            n <= pan.len(),
        ensures
            self.entries_wf(self.tally_entries(pan, n), 0),
            self.tally_entries(pan, n).len() > 0 <==> exists|i: int|
                0 <= i < n && pan[i] is Correct,
        decreases n,
    {
        if n > 0 {
            self.lemma_tally_entries(pan, (n - 1) as nat);
            if let Observation::Correct(hash) = pan[n - 1] {
                assert(self.vote_wf(hash));
            }
        }
    }

    /// The ancestor of an entry at a level that is not above it is a
    /// stored block at that level.
    pub proof fn lemma_entry_block_at(self, entry: TallyEntry, level: u64)
        requires
            self.store_wf(),
            self.entry_wf(entry),
            entry.height >= level,
        ensures
            self.blocks.contains_key(self.entry_block_at(entry, level)),
            self.blocks[self.entry_block_at(entry, level)].height == level,
    {
        self.lemma_nth_parent(entry.bhash, (entry.height - level) as nat);
    }

    /// The block selected at a level is a stored block at that level.
    pub proof fn lemma_best_upto(self, entries: Seq<TallyEntry>, level: u64, n: nat)
        requires
            self.store_wf(),
            self.entries_wf(entries, level),
            1 <= n <= entries.len(),
        ensures
            self.blocks.contains_key(self.best_upto(entries, level, n)),
            self.blocks[self.best_upto(entries, level, n)].height == level,
        decreases n,
    {
        assert(self.entry_wf(entries[n - 1]));
        self.lemma_entry_block_at(entries[n - 1], level);
        if n > 1 {
            self.lemma_best_upto(entries, level, (n - 1) as nat);
        }
    }

    /// A shorter list of well-formed entries is well formed.
    pub proof fn lemma_entries_wf_drop_last(self, entries: Seq<TallyEntry>, level: u64)
        requires
            self.entries_wf(entries, level),
            entries.len() > 0,
        ensures
            self.entries_wf(entries.drop_last(), level),
    {
        assert forall|i: int| 0 <= i < entries.drop_last().len() implies self.entry_wf(
            #[trigger] entries.drop_last()[i],
        ) && entries.drop_last()[i].height >= level by {
            assert(entries.drop_last()[i] == entries[i]);
        }
    }

    /// The entries kept above a selected block name stored blocks above
    /// its level.
    pub proof fn lemma_descendants(self, entries: Seq<TallyEntry>, level: u64, bhash: u64)
        requires
            self.entries_wf(entries, level),
        ensures
            level < u64::MAX ==> self.entries_wf(
                self.descendants(entries, level, bhash),
                (level + 1) as u64,
            ),
            level == u64::MAX ==> self.descendants(entries, level, bhash).len() == 0,
        decreases entries.len(),
    {
        if entries.len() > 0 {
            self.lemma_entries_wf_drop_last(entries, level);
            self.lemma_descendants(entries.drop_last(), level, bhash);
            assert(self.entry_wf(entries[entries.len() - 1]));
        }
    }

    /// The choice among entries that name stored blocks is a stored block,
    /// and there is one whenever there is an entry.
    pub proof fn lemma_ghost_choice(self, entries: Seq<TallyEntry>, level: u64)
        requires
            self.store_wf(),
            self.entries_wf(entries, level),
        ensures
            self.ghost_choice(entries, level) is Some <==> entries.len() > 0,
            self.ghost_choice(entries, level) matches Some(bhash) ==> self.blocks.contains_key(
                bhash,
            ),
        decreases u64::MAX - level,
    {
        if entries.len() > 0 {
            let selected = self.best(entries, level);
            self.lemma_best_upto(entries, level, entries.len());
            self.lemma_descendants(entries, level, selected);
            let rest = self.descendants(entries, level, selected);
            if rest.len() > 0 && level < u64::MAX {
                self.lemma_ghost_choice(rest, (level + 1) as u64);
            }
        }
    }

    /// The fork choice of a panorama whose votes are stored is a stored
    /// block, and there is one exactly if the panorama names a vote of one
    /// of the validators.
    pub proof fn lemma_fork_choice(self, pan: Seq<Observation>)
        requires
            self.store_wf(),
            self.votes_known(pan),
        ensures
            self.fork_choice(pan) is Some <==> exists|i: int|
                0 <= i < pan.len() && i < self.weights.len() && pan[i] is Correct,
            self.fork_choice(pan) matches Some(bhash) ==> self.blocks.contains_key(bhash),
    {
        let n = if pan.len() < self.weights.len() {
            pan.len()
        } else {
            self.weights.len()
        };
        self.lemma_tally_entries(pan, n);
        self.lemma_ghost_choice(self.tally_entries(pan, n), 0);
    }

    /// The block selected among the ancestors of the first `n` entries is
    /// one of them, and none of them is selected over it.
    pub proof fn lemma_best_upto_maximal(self, entries: Seq<TallyEntry>, level: u64, n: nat)
        requires
            1 <= n <= entries.len(),
        ensures
            exists|j: int|
                0 <= j < n && self.best_upto(entries, level, n) == self.entry_block_at(
                    #[trigger] entries[j],
                    level,
                ),
            forall|j: int|
                0 <= j < n ==> !self.beats(
                    entries,
                    level,
                    self.entry_block_at(#[trigger] entries[j], level),
                    self.best_upto(entries, level, n),
                ),
        decreases n,
    {
        let last = self.entry_block_at(entries[n - 1], level);
        if n > 1 {
            self.lemma_best_upto_maximal(entries, level, (n - 1) as nat);
            let rest = self.best_upto(entries, level, (n - 1) as nat);
            let j = choose|j: int|
                0 <= j < n - 1 && rest == self.entry_block_at(#[trigger] entries[j], level);
            if self.beats(entries, level, last, rest) {
                assert(self.best_upto(entries, level, n) == self.entry_block_at(
                    entries[n - 1],
                    level,
                ));
            } else {
                assert(self.best_upto(entries, level, n) == self.entry_block_at(
                    entries[j],
                    level,
                ));
            }
        } else {
            assert(self.best_upto(entries, level, n) == self.entry_block_at(entries[0], level));
        }
    }

    /// The block selected at a level is the ancestor of an entry at that
    /// level, and has the highest score among these ancestors, and the
    /// highest hash among those with that score.
    pub proof fn law_selected_is_best(self, entries: Seq<TallyEntry>, level: u64)
        requires
            entries.len() > 0,
        ensures
            exists|j: int|
                0 <= j < entries.len() && self.best(entries, level) == self.entry_block_at(
                    #[trigger] entries[j],
                    level,
                ),
            forall|j: int|
                0 <= j < entries.len() ==> {
                    let other = self.entry_block_at(#[trigger] entries[j], level);
                    let selected = self.best(entries, level);
                    ||| self.score(entries, level, other) < self.score(entries, level, selected)
                    ||| self.score(entries, level, other) == self.score(entries, level, selected)
                        && other <= selected
                },
    {
        self.lemma_best_upto_maximal(entries, level, entries.len());
        assert forall|j: int| 0 <= j < entries.len() implies {
            let other = self.entry_block_at(#[trigger] entries[j], level);
            let selected = self.best(entries, level);
            ||| self.score(entries, level, other) < self.score(entries, level, selected)
            ||| self.score(entries, level, other) == self.score(entries, level, selected) && other
                <= selected
        } by {
            assert(!self.beats(
                entries,
                level,
                self.entry_block_at(entries[j], level),
                self.best_upto(entries, level, entries.len()),
            ));
        }
    }

    /// No block has more weight behind it than there is, and two different
    /// blocks at one level share no entry.
    pub proof fn lemma_score_bounds(self, entries: Seq<TallyEntry>, level: u64, a: u64, b: u64)
        ensures
            self.score(entries, level, a) <= crate::tallies::total_weight(entries),
            a != b ==> self.score(entries, level, a) + self.score(entries, level, b)
                <= crate::tallies::total_weight(entries),
        decreases entries.len(),
    {
        if entries.len() > 0 {
            self.lemma_score_bounds(entries.drop_last(), level, a, b);
        }
    }

    /// Above all entries no block has any weight behind it.
    pub proof fn lemma_score_nothing_above(self, entries: Seq<TallyEntry>, level: u64, bhash: u64)
        requires
            forall|i: int| 0 <= i < entries.len() ==> (#[trigger] entries[i]).height < level,
        ensures
            self.score(entries, level, bhash) == 0,
        decreases entries.len(),
    {
        if entries.len() > 0 {
            assert forall|i: int| 0 <= i < entries.drop_last().len() implies (
            #[trigger] entries.drop_last()[i]).height < level by {
                assert(entries.drop_last()[i] == entries[i]);
            }
            self.lemma_score_nothing_above(entries.drop_last(), level, bhash);
            assert(entries[entries.len() - 1].height < level);
        }
    }

    /// A block with a positive score is the ancestor of an entry.
    pub proof fn lemma_score_witness(self, entries: Seq<TallyEntry>, level: u64, bhash: u64) -> (i:
        int)
        requires
            self.score(entries, level, bhash) > 0,
        ensures
            0 <= i < entries.len(),
            self.entry_ancestor(entries[i], level) == Some(bhash),
        decreases entries.len(),
    {
        if self.entry_ancestor(entries.last(), level) == Some(bhash) {
            entries.len() - 1
        } else {
            let i = self.lemma_score_witness(entries.drop_last(), level, bhash);
            assert(entries.drop_last()[i] == entries[i]);
            i
        }
    }

    /// The block that has the majority behind it is the one selected, once
    /// it is among the ancestors considered.
    pub proof fn lemma_best_upto_majority(
        self,
        entries: Seq<TallyEntry>,
        level: u64,
        bhash: u64,
        n: nat,
    )
        requires
            self.has_majority(entries, level, bhash),
            1 <= n <= entries.len(),
            exists|j: int| 0 <= j < n && self.entry_block_at(entries[j], level) == bhash,
        ensures
            self.best_upto(entries, level, n) == bhash,
        decreases n,
    {
        let last = self.entry_block_at(entries[n - 1], level);
        if n > 1 {
            let rest = self.best_upto(entries, level, (n - 1) as nat);
            if exists|j: int| 0 <= j < n - 1 && self.entry_block_at(entries[j], level) == bhash {
                self.lemma_best_upto_majority(entries, level, bhash, (n - 1) as nat);
                self.lemma_score_bounds(entries, level, bhash, last);
            } else {
                assert(last == bhash);
                self.lemma_score_bounds(entries, level, bhash, rest);
            }
        }
    }

    /// At its level, the block that has the majority behind it is the one selected.
    pub proof fn lemma_best_majority(self, entries: Seq<TallyEntry>, level: u64, bhash: u64)
        requires
            self.entries_wf(entries, level),
            self.has_majority(entries, level, bhash),
        ensures
            entries.len() > 0,
            self.best(entries, level) == bhash,
    {
        let i = self.lemma_score_witness(entries, level, bhash);
        assert(self.entry_block_at(entries[i], level) == bhash);
        self.lemma_best_upto_majority(entries, level, bhash, entries.len());
    }

    /// An ancestor has at least the weight behind it that its descendant has.
    pub proof fn lemma_score_lift(
        self,
        entries: Seq<TallyEntry>,
        low: u64,
        high: u64,
        bhash: u64,
    )
        requires
            self.entries_wf(entries, low),
            low <= high,
        ensures
            self.score(entries, low, self.nth_parent(bhash, (high - low) as nat)) >= self.score(
                entries,
                high,
                bhash,
            ),
        decreases entries.len(),
    {
        if entries.len() > 0 {
            self.lemma_entries_wf_drop_last(entries, low);
            self.lemma_score_lift(entries.drop_last(), low, high, bhash);
            let last = entries.last();
            if self.entry_ancestor(last, high) == Some(bhash) {
                self.lemma_nth_parent_add(
                    last.bhash,
                    (last.height - high) as nat,
                    (high - low) as nat,
                );
            }
        }
    }

    /// Selecting an ancestor of a block keeps every entry behind that
    /// block: its score is as before, the entries above it that descend
    /// from it are as before, and the total weight has not grown.
    pub proof fn lemma_descendants_keep(
        self,
        entries: Seq<TallyEntry>,
        low: u64,
        high: u64,
        bhash: u64,
    )
        requires
            self.entries_wf(entries, low),
            low < high,
        ensures
            ({
                let ancestor = self.nth_parent(bhash, (high - low) as nat);
                let rest = self.descendants(entries, low, ancestor);
                &&& self.score(rest, high, bhash) == self.score(entries, high, bhash)
                &&& self.descendants(rest, high, bhash) == self.descendants(entries, high, bhash)
                &&& crate::tallies::total_weight(rest) <= crate::tallies::total_weight(entries)
            }),
        decreases entries.len(),
    {
        if entries.len() > 0 {
            let ancestor = self.nth_parent(bhash, (high - low) as nat);
            self.lemma_entries_wf_drop_last(entries, low);
            self.lemma_descendants_keep(entries.drop_last(), low, high, bhash);
            let last = entries.last();
            let rest = self.descendants(entries, low, ancestor);
            if self.entry_ancestor(last, high) == Some(bhash) {
                self.lemma_nth_parent_add(
                    last.bhash,
                    (last.height - high) as nat,
                    (high - low) as nat,
                );
            }
            if last.height > low && self.entry_ancestor(last, low) == Some(ancestor) {
                assert(rest.drop_last() == self.descendants(entries.drop_last(), low, ancestor));
                assert(rest.last() == last);
            }
        }
    }

    /// A block that has the majority of the entries behind it lies on the
    /// way to the fork choice: the choice is the block itself, or the
    /// choice among the entries above it that descend from it.
    pub proof fn lemma_majority(self, entries: Seq<TallyEntry>, level: u64, height: u64, bhash: u64)
        requires
            self.store_wf(),
            self.entries_wf(entries, level),
            level <= height,
            self.has_majority(entries, height, bhash),
        ensures
            self.ghost_choice(entries, level) == self.choice_through(entries, height, bhash),
        decreases height - level,
    {
        if level == height {
            self.lemma_best_majority(entries, level, bhash);
        } else {
            let ancestor = self.nth_parent(bhash, (height - level) as nat);
            let rest = self.descendants(entries, level, ancestor);
            self.lemma_score_lift(entries, level, height, bhash);
            self.lemma_best_majority(entries, level, ancestor);
            self.lemma_descendants_keep(entries, level, height, bhash);
            self.lemma_descendants(entries, level, ancestor);
            let i = self.lemma_score_witness(rest, height, bhash);
            self.lemma_majority(rest, (level + 1) as u64, height, bhash);
        }
    }
}

} // verus!
