//! Blocks of consensus values.

use vstd::prelude::*;
use crate::state::State;
use crate::traits::Context;

verus! {

/// The mathematical content of a stored [`Block`].
pub struct BlockView {
    pub height: u64,
    pub skip_idx: Seq<u64>,
    pub values: Seq<u64>,
}

impl BlockView {
    /// The parent block: the first entry of the skip index.
    pub open spec fn parent(self) -> Option<u64> {
        if self.skip_idx.len() > 0 {
            Some(self.skip_idx[0])
        } else {
            None
        }
    }
}

/// A block of consensus values, introduced by the vote with the same hash.
#[derive(Debug, PartialEq, Eq)]
pub struct Block {
    /// The number of ancestors: 0 for a block without parent.
    pub height: u64,
    /// A skip list index of the block's ancestors, starting with the parent.
    ///
    /// For every `p = 1 << i` that divides `height`, this contains an `i`-th entry pointing to
    /// the ancestor with `height - p`.
    pub skip_idx: Vec<u64>,
    /// The consensus values, in order.
    pub values: Vec<u64>,
}

impl View for Block {
    type V = BlockView;

    open spec fn view(&self) -> BlockView {
        BlockView { height: self.height, skip_idx: self.skip_idx@, values: self.values@ }
    }
}

impl Block {
    /// Creates a new block with the given parent and values.  The parent
    /// must be known, and not at the greatest height there is.
    pub fn new<C: Context>(parent: Option<u64>, values: Vec<u64>, state: &State<C>) -> (r: Block)
        requires
            state@.store_wf(),
            parent matches Some(hash) ==> state@.blocks.contains_key(hash)
                && state@.blocks[hash].height < u64::MAX,
        ensures
            r@ == state@.new_block(parent, values@),
    {
        let hash = match parent {
            None => {
                return Block { height: 0, skip_idx: Vec::new(), values };
            },
            Some(hash) => hash,
        };
        let height = state.block(hash).height + 1;
        let mut skip_idx: Vec<u64> = Vec::new();
        skip_idx.push(hash);
        let mut quotient = height;
        let mut i: usize = 0;
        proof {
            vstd::arithmetic::power2::lemma2_to64();
            assert(skip_idx@[0] == state@.nth_parent(hash, 0));
        }
        while quotient % 2 == 0
            invariant
                state@.store_wf(),
                state@.blocks.contains_key(hash),
                state@.blocks[hash].height + 1 == height,
                quotient >= 1,
                height == quotient * vstd::arithmetic::power2::pow2(i as nat),
                skip_idx@.len() == i + 1,
                forall|j: int|
                    0 <= j <= i ==> #[trigger] skip_idx@[j] == state@.nth_parent(
                        hash,
                        (vstd::arithmetic::power2::pow2(j as nat) - 1) as nat,
                    ),
            decreases quotient,
        {
            proof {
                let step = vstd::arithmetic::power2::pow2(i as nat);
                crate::lemmas::lemma_skip_step(height as nat, quotient as nat, i as nat);
                crate::lemmas::lemma_pow2_fits((i + 1) as nat);
                state@.lemma_nth_parent(hash, (step - 1) as nat);
                assert(state@.block_wf(skip_idx@[i as int]));
                state@.lemma_nth_parent_add(hash, (step - 1) as nat, step);
            }
            let ancestor = state.block(skip_idx[i]);
            skip_idx.push(ancestor.skip_idx[i]);
            quotient = quotient / 2;
            i += 1;
        }
        proof {
            crate::lemmas::lemma_skip_len_shift(quotient as nat, i as nat);
            crate::lemmas::lemma_skip_len_pos(quotient as nat);
            assert(skip_idx@ =~= state@.block_skip_idx(parent));
        }
        Block { height, skip_idx, values }
    }

    /// Returns the block's parent, or `None` if it has height 0.
    pub fn parent(&self) -> (r: Option<u64>)
        ensures
            r == self@.parent(),
    {
        if self.skip_idx.len() > 0 {
            Some(self.skip_idx[0])
        } else {
            None
        }
    }
}

} // verus!
