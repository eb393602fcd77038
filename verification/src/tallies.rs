//! The tally of the latest votes behind a fork choice.
//!
//! A validator's latest vote counts for the block it names and for all of
//! that block's ancestors.  Level by level, the block with the highest
//! score among the children of the block selected before is selected, the
//! higher hash winning a tie, until no vote is left above the selection.
//! The higher hash is the greater number; that is the hash whose
//! canonical bytes come later when they are compared from the last, most
//! significant byte to the first ([`hash_after`]).
//!
//! A block that has more than half of the weight of all votes behind it
//! is selected at its level whatever else there is, and so are its
//! ancestors at theirs: the search for the choice goes on from the highest
//! such block.

use vstd::prelude::*;
use crate::model::StateView;
use crate::state::State;
use crate::weight::Weight;
use crate::traits::Context;
use crate::vote::Observation;

verus! {

/// One validator's latest vote: the block it names, that block's height,
/// and the validator's weight.
#[derive(Clone, Copy, Debug, PartialEq, Eq, Structural)]
pub struct TallyEntry {
    pub height: u64,
    pub bhash: u64,
    pub weight: Weight,
}

impl StateView {
    /// Whether the entry names a stored block and its height.
    pub open spec fn entry_wf(self, entry: TallyEntry) -> bool {
        &&& self.blocks.contains_key(entry.bhash)
        &&& self.blocks[entry.bhash].height == entry.height
    }

    /// The entries of the first `n` validators for the panorama `pan`: one
    /// for each correct observation, in index order.
    pub open spec fn tally_entries(self, pan: Seq<Observation>, n: nat) -> Seq<TallyEntry>
        decreases n,
    {
        if n == 0 {
            Seq::empty()
        } else {
            let rest = self.tally_entries(pan, (n - 1) as nat);
            match pan[n - 1] {
                Observation::Correct(hash) => rest.push(
                    TallyEntry {
                        height: self.blocks[self.votes[hash].block].height,
                        bhash: self.votes[hash].block,
                        weight: self.weights[n - 1],
                    },
                ),
                _ => rest,
            }
        }
    }

    /// The block at `level` on the way from the block that `entry` names
    /// to the root of its tree, for an entry at `level` or above.
    pub open spec fn entry_block_at(self, entry: TallyEntry, level: u64) -> u64 {
        self.nth_parent(entry.bhash, (entry.height - level) as nat)
    }

    /// The ancestor at `level` of the block that `entry` names; none for an
    /// entry below `level`.
    pub open spec fn entry_ancestor(self, entry: TallyEntry, level: u64) -> Option<u64> {
        if entry.height >= level {
            Some(self.entry_block_at(entry, level))
        } else {
            None
        }
    }

    /// The score of the block `bhash` at `level`: the total weight of the
    /// entries that name it or one of its descendants.
    pub open spec fn score(self, entries: Seq<TallyEntry>, level: u64, bhash: u64) -> nat
        decreases entries.len(),
    {
        if entries.len() == 0 {
            0
        } else {
            let rest = self.score(entries.drop_last(), level, bhash);
            if self.entry_ancestor(entries.last(), level) == Some(bhash) {
                (rest + entries.last().weight.0) as nat
            } else {
                rest
            }
        }
    }

    /// Whether the block `bhash` at `level` has more than half of the
    /// weight of all entries behind it.
    pub open spec fn has_majority(self, entries: Seq<TallyEntry>, level: u64, bhash: u64) -> bool {
        2 * self.score(entries, level, bhash) > total_weight(entries)
    }

    /// Whether no block above `height` has the majority of the entries behind it.
    pub open spec fn no_majority_above(self, entries: Seq<TallyEntry>, height: u64) -> bool {
        forall|above: u64, bhash: u64|
            above > height ==> !#[trigger] self.has_majority(entries, above, bhash)
    }

    /// Whether block `a` is selected over block `b`: by the higher score,
    /// and by the higher hash where the scores are equal.  The higher hash
    /// is the greater number, which is the one that comes later in the
    /// order of the canonical bytes ([`hash_after`]).
    pub open spec fn beats(self, entries: Seq<TallyEntry>, level: u64, a: u64, b: u64) -> bool {
        let score_a = self.score(entries, level, a);
        let score_b = self.score(entries, level, b);
        score_a > score_b || (score_a == score_b && a > b)
    }

    /// The block selected at `level` among the ancestors of the first `n`
    /// entries, for `n > 0` and entries at `level` or above.
    pub open spec fn best_upto(self, entries: Seq<TallyEntry>, level: u64, n: nat) -> u64
        decreases n,
    {
        let last = self.entry_block_at(entries[n - 1], level);
        if n <= 1 {
            last
        } else {
            let rest = self.best_upto(entries, level, (n - 1) as nat);
            if self.beats(entries, level, last, rest) {
                last
            } else {
                rest
            }
        }
    }

    /// The block selected at `level`: the one with the highest score among
    /// the ancestors of the entries at that level.
    pub open spec fn best(self, entries: Seq<TallyEntry>, level: u64) -> u64 {
        self.best_upto(entries, level, entries.len())
    }

    /// The entries above `level` that name a descendant of the block
    /// `bhash` at `level`, in their order.
    pub open spec fn descendants(self, entries: Seq<TallyEntry>, level: u64, bhash: u64) -> Seq<
        TallyEntry,
    >
        decreases entries.len(),
    {
        if entries.len() == 0 {
            Seq::empty()
        } else {
            let rest = self.descendants(entries.drop_last(), level, bhash);
            let last = entries.last();
            if last.height > level && self.entry_ancestor(last, level) == Some(bhash) {
                rest.push(last)
            } else {
                rest
            }
        }
    }

    /// The fork choice for entries that are all at `level` or above and
    /// share their ancestors below it: select the best block at `level`,
    /// keep the entries above it that descend from it, and go on one level
    /// up; the last block selected is the choice.
    pub open spec fn ghost_choice(self, entries: Seq<TallyEntry>, level: u64) -> Option<u64>
        decreases u64::MAX - level,
    {
        if entries.len() == 0 {
            None
        } else {
            let selected = self.best(entries, level);
            let rest = self.descendants(entries, level, selected);
            if rest.len() == 0 || level == u64::MAX {
                Some(selected)
            } else {
                self.ghost_choice(rest, (level + 1) as u64)
            }
        }
    }

    /// The fork choice once the block `bhash` at `level` is selected: the
    /// block itself where no entry above it descends from it, and the
    /// choice among those that do otherwise.
    pub open spec fn choice_through(self, entries: Seq<TallyEntry>, level: u64, bhash: u64) -> Option<
        u64,
    > {
        let rest = self.descendants(entries, level, bhash);
        if rest.len() == 0 || level == u64::MAX {
            Some(bhash)
        } else {
            self.ghost_choice(rest, (level + 1) as u64)
        }
    }

    /// The fork choice from the view of the panorama `pan`: the correct
    /// validators' latest votes count for the block they name and all of
    /// its ancestors; starting from height 0, the child with the highest
    /// score is selected until a block is reached above which there is no
    /// vote.  None where the panorama holds no correct observation.
    pub open spec fn fork_choice(self, pan: Seq<Observation>) -> Option<u64> {
        let n = if pan.len() < self.weights.len() {
            pan.len()
        } else {
            self.weights.len()
        };
        self.ghost_choice(self.tally_entries(pan, n), 0)
    }

    /// Whether every entry names a stored block, with its height, at
    /// `level` or above.
    pub open spec fn entries_wf(self, entries: Seq<TallyEntry>, level: u64) -> bool {
        forall|i: int|
            0 <= i < entries.len() ==> self.entry_wf(#[trigger] entries[i]) && entries[i].height
                >= level
    }
}

/// Whether the first `n` bytes of `a` come later than those of `b` when
/// the bytes are compared from the last of them to the first.
pub open spec fn bytes_after(a: Seq<u8>, b: Seq<u8>, n: nat) -> bool
    decreases n,
{
    if n == 0 {
        false
    } else {
        a[n - 1] > b[n - 1] || (a[n - 1] == b[n - 1] && bytes_after(a, b, (n - 1) as nat))
    }
}

/// Whether the hash `a` comes after the hash `b` in the order that breaks
/// ties: the lexicographic order of the canonical bytes of the hashes,
/// which are little-endian, taken from the most significant byte down.
pub open spec fn hash_after(a: u64, b: u64) -> bool {
    bytes_after(vstd::bytes::spec_u64_to_le_bytes(a), vstd::bytes::spec_u64_to_le_bytes(b), 8)
}

/// The order that breaks ties is the order of the hashes as numbers.
pub proof fn law_hash_order(a: u64, b: u64)
    ensures
        hash_after(a, b) <==> a > b,
{
    vstd::bytes::spec_u64_to_le_bytes_to_open(a);
    vstd::bytes::spec_u64_to_le_bytes_to_open(b);
    let x = vstd::bytes::spec_u64_to_le_bytes(a);
    let y = vstd::bytes::spec_u64_to_le_bytes(b);
    reveal_with_fuel(bytes_after, 9);
    let a0 = a & 0xff;
    let a1 = (a >> 8) & 0xff;
    let a2 = (a >> 16) & 0xff;
    let a3 = (a >> 24) & 0xff;
    let a4 = (a >> 32) & 0xff;
    let a5 = (a >> 40) & 0xff;
    let a6 = (a >> 48) & 0xff;
    let a7 = (a >> 56) & 0xff;
    let b0 = b & 0xff;
    let b1 = (b >> 8) & 0xff;
    let b2 = (b >> 16) & 0xff;
    let b3 = (b >> 24) & 0xff;
    let b4 = (b >> 32) & 0xff;
    let b5 = (b >> 40) & 0xff;
    let b6 = (b >> 48) & 0xff;
    let b7 = (b >> 56) & 0xff;
    assert(a0 < 256 && a1 < 256 && a2 < 256 && a3 < 256 && a4 < 256 && a5 < 256 && a6 < 256 && a7
        < 256) by (bit_vector)
        requires
            a0 == a & 0xff,
            a1 == (a >> 8) & 0xff,
            a2 == (a >> 16) & 0xff,
            a3 == (a >> 24) & 0xff,
            a4 == (a >> 32) & 0xff,
            a5 == (a >> 40) & 0xff,
            a6 == (a >> 48) & 0xff,
            a7 == (a >> 56) & 0xff,
    ;
    assert(b0 < 256 && b1 < 256 && b2 < 256 && b3 < 256 && b4 < 256 && b5 < 256 && b6 < 256 && b7
        < 256) by (bit_vector)
        requires
            b0 == b & 0xff,
            b1 == (b >> 8) & 0xff,
            b2 == (b >> 16) & 0xff,
            b3 == (b >> 24) & 0xff,
            b4 == (b >> 32) & 0xff,
            b5 == (b >> 40) & 0xff,
            b6 == (b >> 48) & 0xff,
            b7 == (b >> 56) & 0xff,
    ;
    assert(a > b <==> (a7 > b7 || (a7 == b7 && (a6 > b6 || (a6 == b6 && (a5 > b5 || (a5 == b5 && (a4
        > b4 || (a4 == b4 && (a3 > b3 || (a3 == b3 && (a2 > b2 || (a2 == b2 && (a1 > b1 || (a1 == b1
        && a0 > b0))))))))))))))) by (bit_vector)
        requires
            a0 == a & 0xff,
            a1 == (a >> 8) & 0xff,
            a2 == (a >> 16) & 0xff,
            a3 == (a >> 24) & 0xff,
            a4 == (a >> 32) & 0xff,
            a5 == (a >> 40) & 0xff,
            a6 == (a >> 48) & 0xff,
            a7 == (a >> 56) & 0xff,
            b0 == b & 0xff,
            b1 == (b >> 8) & 0xff,
            b2 == (b >> 16) & 0xff,
            b3 == (b >> 24) & 0xff,
            b4 == (b >> 32) & 0xff,
            b5 == (b >> 40) & 0xff,
            b6 == (b >> 48) & 0xff,
            b7 == (b >> 56) & 0xff,
    ;
    assert(x[0] == a0 as u8 && x[1] == a1 as u8 && x[2] == a2 as u8 && x[3] == a3 as u8 && x[4]
        == a4 as u8 && x[5] == a5 as u8 && x[6] == a6 as u8 && x[7] == a7 as u8);
    assert(y[0] == b0 as u8 && y[1] == b1 as u8 && y[2] == b2 as u8 && y[3] == b3 as u8 && y[4]
        == b4 as u8 && y[5] == b5 as u8 && y[6] == b6 as u8 && y[7] == b7 as u8);
}

/// The total weight of the entries.
pub open spec fn total_weight(entries: Seq<TallyEntry>) -> nat
    decreases entries.len(),
{
    if entries.len() == 0 {
        0
    } else {
        (total_weight(entries.drop_last()) + entries.last().weight.0) as nat
    }
}

/// The latest votes of the correct validators that are still in the race:
/// those for blocks at `level` or above.
pub struct Tallies {
    level: u64,
    entries: Vec<TallyEntry>,
}

/// The content of a [`Tallies`].
pub struct TalliesView {
    pub level: u64,
    pub entries: Seq<TallyEntry>,
}

impl View for Tallies {
    type V = TalliesView;

    closed spec fn view(&self) -> TalliesView {
        TalliesView { level: self.level, entries: self.entries@ }
    }
}

impl TalliesView {
    /// Whether every entry names a block of `state` at or above the level.
    pub open spec fn wf(self, state: StateView) -> bool {
        state.entries_wf(self.entries, self.level)
    }
}

impl Tallies {
    /// Creates an empty tally at height 0.
    pub fn new() -> (r: Tallies)
        ensures
            r@.level == 0,
            r@.entries == Seq::<TallyEntry>::empty(),
    {
        Tallies { level: 0, entries: Vec::new() }
    }

    /// Adds a vote of the given weight for the block `bhash` at `height`.
    pub fn add(&mut self, height: u64, bhash: u64, weight: Weight)
        ensures
            final(self)@.level == old(self)@.level,
            final(self)@.entries == old(self)@.entries.push(TallyEntry { height, bhash, weight }),
    {
        self.entries.push(TallyEntry { height, bhash, weight });
    }

    /// Returns `true` if there are no votes in this tally.
    pub fn is_empty(&self) -> (r: bool)
        ensures
            r == (self@.entries.len() == 0),
    {
        self.entries.len() == 0
    }

    /// Returns the total weight of the votes in this tally.
    pub fn weight(&self) -> (r: u128)
        ensures
            r == total_weight(self@.entries),
    {
        let mut total: u128 = 0;
        let mut i: usize = 0;
        while i < self.entries.len()
            invariant
                i <= self.entries@.len(),
                total == total_weight(self@.entries.take(i as int)),
                total <= i * u64::MAX,
            decreases self.entries@.len() - i,
        {
            proof {
                let next = self@.entries.take(i + 1);
                assert(next.drop_last() == self@.entries.take(i as int));
                assert(next.last() == self@.entries[i as int]);
                assert((i + 1) * u64::MAX == i * u64::MAX + u64::MAX) by (nonlinear_arith);
                assert(i * u64::MAX <= usize::MAX * u64::MAX) by (nonlinear_arith)
                    requires
                        i <= usize::MAX,
                ;
            }
            total = total + self.entries[i].weight.0 as u128;
            i += 1;
        }
        assert(self@.entries.take(self.entries@.len() as int) == self@.entries);
        total
    }

    /// Returns the greatest height of a block that a vote in this tally
    /// names; the tally must not be empty.
    fn max_height(&self) -> (r: u64)
        requires
            self@.entries.len() > 0,
        ensures
            forall|i: int| 0 <= i < self@.entries.len() ==> (#[trigger] self@.entries[i]).height <= r,
            exists|i: int| 0 <= i < self@.entries.len() && (#[trigger] self@.entries[i]).height == r,
    {
        let mut max = self.entries[0].height;
        let mut i: usize = 1;
        while i < self.entries.len()
            invariant
                1 <= i <= self.entries@.len(),
                forall|j: int| 0 <= j < i ==> (#[trigger] self@.entries[j]).height <= max,
                exists|j: int| 0 <= j < i && (#[trigger] self@.entries[j]).height == max,
            decreases self.entries@.len() - i,
        {
            if self.entries[i].height > max {
                max = self.entries[i].height;
            }
            i += 1;
        }
        max
    }

    /// Returns the ancestors at `height` of the blocks that the entries name.
    fn ancestors<C: Context>(&self, state: &State<C>, height: u64) -> (r: Vec<Option<u64>>)
        requires
            state@.store_wf(),
            self@.wf(state@),
        ensures
            r@.len() == self@.entries.len(),
            forall|i: int|
                0 <= i < r@.len() ==> #[trigger] r@[i] == state@.entry_ancestor(
                    self@.entries[i],
                    height,
                ),
            forall|i: int|
                0 <= i < r@.len() ==> (#[trigger] r@[i] matches Some(bhash)
                    ==> state@.blocks.contains_key(bhash) && state@.blocks[bhash].height == height),
    {
        let mut out: Vec<Option<u64>> = Vec::new();
        let mut i: usize = 0;
        while i < self.entries.len()
            invariant
                state@.store_wf(),
                self@.wf(state@),
                i <= self.entries@.len(),
                out@.len() == i,
                forall|j: int|
                    0 <= j < i ==> #[trigger] out@[j] == state@.entry_ancestor(
                        self@.entries[j],
                        height,
                    ),
                forall|j: int|
                    0 <= j < i ==> (#[trigger] out@[j] matches Some(bhash)
                        ==> state@.blocks.contains_key(bhash) && state@.blocks[bhash].height
                        == height),
            decreases self.entries@.len() - i,
        {
            assert(state@.entry_wf(self@.entries[i as int]));
            let ancestor = state.find_ancestor(self.entries[i].bhash, height);
            out.push(ancestor);
            i += 1;
        }
        out
    }

    /// Returns the score of the block `bhash` at `height`, given the
    /// entries' ancestors at that height.
    fn score(
        &self,
        ancestors: &Vec<Option<u64>>,
        bhash: u64,
        Ghost(state): Ghost<StateView>,
        Ghost(height): Ghost<u64>,
    ) -> (r: u128)
        requires
            ancestors@.len() == self@.entries.len(),
            forall|i: int|
                0 <= i < ancestors@.len() ==> #[trigger] ancestors@[i] == state.entry_ancestor(
                    self@.entries[i],
                    height,
                ),
        ensures
            r == state.score(self@.entries, height, bhash),
    {
        let mut total: u128 = 0;
        let mut i: usize = 0;
        while i < self.entries.len()
            invariant
                i <= self.entries@.len() == ancestors@.len(),
                forall|j: int|
                    0 <= j < ancestors@.len() ==> #[trigger] ancestors@[j] == state.entry_ancestor(
                        self@.entries[j],
                        height,
                    ),
                total == state.score(self@.entries.take(i as int), height, bhash),
                total <= i * u64::MAX,
            decreases self.entries@.len() - i,
        {
            proof {
                let next = self@.entries.take(i + 1);
                assert(next.drop_last() == self@.entries.take(i as int));
                assert(next.last() == self@.entries[i as int]);
                assert((i + 1) * u64::MAX == i * u64::MAX + u64::MAX) by (nonlinear_arith);
                assert(i * u64::MAX <= usize::MAX * u64::MAX) by (nonlinear_arith)
                    requires
                        i <= usize::MAX,
                ;
            }
            let counts = match ancestors[i] {
                Some(ancestor) => ancestor == bhash,
                None => false,
            };
            if counts {
                total = total + self.entries[i].weight.0 as u128;
            }
            i += 1;
        }
        assert(self@.entries.take(self.entries@.len() as int) == self@.entries);
        total
    }

    /// Returns the height and hash of a block that the fork choice is or
    /// descends from, or `None` if the tally is empty: the highest block
    /// that has more than half of the tally's weight behind it; without
    /// such a block above the tally's level, the block with the highest
    /// score at that level, and with the higher hash among equals: the
    /// greater number, which comes later in the order of the canonical
    /// bytes.
    pub fn find_decided<C: Context>(&self, state: &State<C>) -> (r: Option<(u64, u64)>)
        requires
            state@.store_wf(),
            self@.wf(state@),
        ensures
            match r {
                None => self@.entries.len() == 0,
                Some((height, bhash)) => {
                    &&& self@.entries.len() > 0
                    &&& height >= self@.level
                    &&& state@.blocks.contains_key(bhash)
                    &&& state@.blocks[bhash].height == height
                    &&& state@.ghost_choice(self@.entries, self@.level) == state@.choice_through(
                        self@.entries,
                        height,
                        bhash,
                    )
                    &&& state@.has_majority(self@.entries, height, bhash) || (height == self@.level
                        && bhash == state@.best(self@.entries, self@.level))
                    &&& state@.no_majority_above(self@.entries, height)
                },
            },
    {
        if self.entries.len() == 0 {
            return None;
        }
        let total = self.weight();
        // Find the greatest height at which a block has the majority behind it.
        let mut height = self.max_height();
        proof {
            assert forall|above: u64, bhash: u64| above > height implies !#[trigger] state@.has_majority(
                self@.entries,
                above,
                bhash,
            ) by {
                state@.lemma_score_nothing_above(self@.entries, above, bhash);
            }
        }
        while height > self.level
            invariant
                state@.store_wf(),
                self@.wf(state@),
                height >= self@.level,
                total == total_weight(self@.entries),
                state@.no_majority_above(self@.entries, height),
            decreases height,
        {
            let ancestors = self.ancestors(state, height);
            let mut i: usize = 0;
            while i < ancestors.len()
                invariant
                    state@.store_wf(),
                    self@.wf(state@),
                    height >= self@.level,
                    total == total_weight(self@.entries),
                    i <= ancestors@.len() == self@.entries.len(),
                    forall|j: int|
                        0 <= j < ancestors@.len() ==> #[trigger] ancestors@[j]
                            == state@.entry_ancestor(self@.entries[j], height),
                    forall|j: int|
                        0 <= j < ancestors@.len() ==> (#[trigger] ancestors@[j] matches Some(bhash)
                            ==> state@.blocks.contains_key(bhash) && state@.blocks[bhash].height
                            == height),
                    forall|j: int|
                        0 <= j < i ==> (#[trigger] ancestors@[j] matches Some(bhash)
                            ==> !state@.has_majority(self@.entries, height, bhash)),
                    state@.no_majority_above(self@.entries, height),
                decreases ancestors@.len() - i,
            {
                if let Some(candidate) = ancestors[i] {
                    let score = self.score(&ancestors, candidate, Ghost(state@), Ghost(height));
                    proof {
                        state@.lemma_score_bounds(self@.entries, height, candidate, candidate);
                    }
                    if score > total - score {
                        proof {
                            state@.lemma_majority(self@.entries, self@.level, height, candidate);
                        }
                        return Some((height, candidate));
                    }
                }
                i += 1;
            }
            proof {
                assert forall|bhash: u64| !state@.has_majority(self@.entries, height, bhash) by {
                    if state@.has_majority(self@.entries, height, bhash) {
                        let j = state@.lemma_score_witness(self@.entries, height, bhash);
                        assert(ancestors@[j] == Some(bhash));
                    }
                }
            }
            height -= 1;
        }
        // No block above has the majority: select the best block at the tally's level.
        let ancestors = self.ancestors(state, self.level);
        proof {
            assert(state@.entry_wf(self@.entries[0]));
        }
        let mut best = ancestors[0].unwrap();
        let mut best_score = self.score(&ancestors, best, Ghost(state@), Ghost(self.level));
        let mut i: usize = 1;
        while i < ancestors.len()
            invariant
                self@.wf(state@),
                1 <= i <= ancestors@.len() == self@.entries.len(),
                forall|j: int|
                    0 <= j < ancestors@.len() ==> #[trigger] ancestors@[j] == state@.entry_ancestor(
                        self@.entries[j],
                        self@.level,
                    ),
                forall|j: int|
                    0 <= j < ancestors@.len() ==> (#[trigger] ancestors@[j] matches Some(bhash)
                        ==> state@.blocks.contains_key(bhash) && state@.blocks[bhash].height
                        == self@.level),
                best == state@.best_upto(self@.entries, self@.level, i as nat),
                best_score == state@.score(self@.entries, self@.level, best),
                state@.blocks.contains_key(best),
                state@.blocks[best].height == self@.level,
            decreases ancestors@.len() - i,
        {
            proof {
                assert(state@.entry_wf(self@.entries[i as int]));
            }
            let candidate = ancestors[i].unwrap();
            let score = self.score(&ancestors, candidate, Ghost(state@), Ghost(self.level));
            if score > best_score || (score == best_score && candidate > best) {
                best = candidate;
                best_score = score;
            }
            i += 1;
        }
        Some((self.level, best))
    }

    /// Removes all votes for blocks that are not descendants of the block
    /// `bhash` at `height`, and the votes for that block itself.
    pub fn filter_descendants<C: Context>(self, height: u64, bhash: u64, state: &State<C>) -> (r:
        Tallies)
        requires
            state@.store_wf(),
            self@.wf(state@),
            height >= self@.level,
        ensures
            r@.entries == state@.descendants(self@.entries, height, bhash),
            r@.entries.len() > 0 ==> r@.level == height + 1,
            r@.wf(state@),
    {
        let mut kept: Vec<TallyEntry> = Vec::new();
        let mut i: usize = 0;
        while i < self.entries.len()
            invariant
                state@.store_wf(),
                self@.wf(state@),
                i <= self.entries@.len(),
                kept@ == state@.descendants(self@.entries.take(i as int), height, bhash),
                forall|j: int|
                    0 <= j < kept@.len() ==> state@.entry_wf(#[trigger] kept@[j]) && kept@[j].height
                        > height,
            decreases self.entries@.len() - i,
        {
            let entry = self.entries[i];
            proof {
                let next = self@.entries.take(i + 1);
                assert(next.drop_last() == self@.entries.take(i as int));
                assert(next.last() == entry);
                assert(state@.entry_wf(self@.entries[i as int]));
            }
            if entry.height > height {
                let ancestor = state.find_ancestor(entry.bhash, height);
                if ancestor == Some(bhash) {
                    kept.push(entry);
                }
            }
            i += 1;
        }
        assert(self@.entries.take(self.entries@.len() as int) == self@.entries);
        assert(kept@.len() > 0 ==> kept@[0].height > height);
        let level = if height < u64::MAX {
            height + 1
        } else {
            height
        };
        Tallies { level, entries: kept }
    }
}

} // verus!
