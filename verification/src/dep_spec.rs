//! The dependencies of a block in the block protocol: the indices of the
//! blocks that must be there before it.

use vstd::prelude::*;
use std::collections::BTreeSet;
use std::marker::PhantomData;
use crate::synchronizer::DependencySpec;

verus! {

broadcast use vstd::std_specs::btree::group_btree_axioms;

/// The index of a block in the chain.
pub type BlockIndex = u64;

/// The outstanding dependencies of a block: those that still have to be
/// asked for, and those that were asked for and have not arrived.
#[derive(Debug)]
pub struct PotholeDepSpec<B> {
    to_request: BTreeSet<BlockIndex>,
    requested: BTreeSet<BlockIndex>,
    _block: PhantomData<B>,
}

/// The content of a [`PotholeDepSpec`].
pub struct DepSpecView {
    pub to_request: Set<BlockIndex>,
    pub requested: Set<BlockIndex>,
}

impl<B> View for PotholeDepSpec<B> {
    type V = DepSpecView;

    closed spec fn view(&self) -> DepSpecView {
        DepSpecView { to_request: self.to_request@, requested: self.requested@ }
    }
}

impl<B> Clone for PotholeDepSpec<B> {
    fn clone(&self) -> (r: Self)
        ensures
            r@ == self@,
    {
        Self {
            to_request: self.to_request.clone(),
            requested: self.requested.clone(),
            _block: PhantomData,
        }
    }
}

impl<B> PotholeDepSpec<B> {
    /// Creates the specification of a block that depends on `deps`, none of
    /// which has been asked for.
    pub fn new(deps: BTreeSet<BlockIndex>) -> (r: Self)
        ensures
            r@.to_request == deps@,
            r@.requested == Set::<BlockIndex>::empty(),
    {
        Self { to_request: deps, requested: BTreeSet::new(), _block: PhantomData }
    }
}

impl<B> DependencySpec for PotholeDepSpec<B> {
    type Item = B;

    open spec fn to_request(&self) -> Set<BlockIndex> {
        self@.to_request
    }

    open spec fn requested(&self) -> Set<BlockIndex> {
        self@.requested
    }

    /// Moves the least index that has not been asked for to those that
    /// were, and returns it.
    fn next_dependency(&mut self) -> (r: Option<BlockIndex>)
        ensures
            r matches Some(dep) ==> forall|other: BlockIndex|
                old(self)@.to_request.contains(other) ==> dep <= other,
    {
        let next_dep = first(&self.to_request);
        if let Some(dep) = next_dep {
            self.to_request.remove(&dep);
            self.requested.insert(dep);
        } else {
            assert(self@.to_request =~= Set::<BlockIndex>::empty());
        }
        next_dep
    }

    /// Removes `dep` from the outstanding dependencies.
    fn resolve_dependency(&mut self, dep: BlockIndex) -> (r: bool) {
        let unasked = self.to_request.remove(&dep);
        let asked = self.requested.remove(&dep);
        unasked || asked
    }

    fn all_resolved(&self) -> (r: bool) {
        proof {
            assert(self@.to_request.is_empty() <==> self@.to_request =~= Set::<BlockIndex>::empty());
            assert(self@.requested.is_empty() <==> self@.requested =~= Set::<BlockIndex>::empty());
        }
        self.to_request.is_empty() && self.requested.is_empty()
    }
}

/// Returns the least element of the set, if it has one.
fn first(set: &BTreeSet<BlockIndex>) -> (r: Option<BlockIndex>)
    ensures
        match r {
            Some(least) => set@.contains(least) && forall|other: BlockIndex|
                set@.contains(other) ==> least <= other,
            None => set@.is_empty(),
        },
{
    for element in iter: set.iter()
        invariant
            iter.index() == 0,
    {
        proof {
            let elements = iter.seq();
            assert(elements.unref().to_set() == set@);
            assert(elements.unref()[0] == *element);
            assert(elements.unref().to_set().contains(*element));
            assert forall|other: BlockIndex| set@.contains(other) implies *element <= other by {
                let j = choose|j: int| 0 <= j < elements.unref().len() && elements.unref()[j] == other;
                if j > 0 {
                    assert(vstd::std_specs::btree::increasing_seq(elements));
                    assert(vstd::std_specs::cmp::OrdSpec::cmp_spec(&elements[0], &elements[j])
                        is Less);
                }
            }
        }
        return Some(*element);
    }
    None
}

} // verus!
