//! The layer that fetches what an item depends on before the item is
//! handed to the protocol state.
//!
//! An item that the protocol state cannot take yet is queued with the
//! specification of its missing dependencies.  The peer that sent the item
//! is asked for them, one at a time, and for each of them once.  When an
//! item is accepted, it is struck from what the queued items depend on; an
//! item with nothing outstanding is offered to the protocol state again,
//! and where the state accepts it, the items that it releases follow.  In
//! the end the peers of the items that are left without a request are
//! asked for the next dependency.
//!
//! The contracts speak of the protocol state's answers by name
//! ([`ProtocolState::verdict`], [`ProtocolState::offered`]), and of what
//! happened in between by the offers that were made ([`fan_out_with`]).

use vstd::prelude::*;

verus! {

/// Identifies an item, and names it where another item depends on it.
pub type ItemId = u64;

/// Identifies a peer.
pub type NodeId = u64;

/// What an item still depends on: the dependencies that have not been
/// handed out to be asked for, and those that were handed out and have not
/// arrived.
pub trait DependencySpec {
    /// The items that the dependencies are dependencies of.
    type Item;

    /// The dependencies that have not been handed out.
    open spec fn to_request(&self) -> Set<ItemId> {
        arbitrary()
    }

    /// The dependencies that were handed out and have not arrived.
    open spec fn requested(&self) -> Set<ItemId> {
        arbitrary()
    }

    /// Hands out one dependency that has not been handed out yet, if there is one.
    fn next_dependency(&mut self) -> (r: Option<ItemId>)
        ensures
            match r {
                Some(dep) => {
                    &&& old(self).to_request().contains(dep)
                    &&& final(self).to_request() == old(self).to_request().remove(dep)
                    &&& final(self).requested() == old(self).requested().insert(dep)
                },
                None => {
                    &&& old(self).to_request() == Set::<ItemId>::empty()
                    &&& final(self).to_request() == old(self).to_request()
                    &&& final(self).requested() == old(self).requested()
                },
            },
    ;

    /// Takes note that the dependency `dep` has arrived.  Returns whether it was outstanding.
    fn resolve_dependency(&mut self, dep: ItemId) -> (r: bool)
        ensures
            r == (old(self).to_request().contains(dep) || old(self).requested().contains(dep)),
            final(self).to_request() == old(self).to_request().remove(dep),
            final(self).requested() == old(self).requested().remove(dep),
    ;

    /// Returns whether no dependency is outstanding.
    fn all_resolved(&self) -> (r: bool)
        ensures
            r == (self.to_request() == Set::<ItemId>::empty() && self.requested() == Set::<
                ItemId,
            >::empty()),
    ;
}

/// An item together with its identifier.
pub struct ItemWithId<D: DependencySpec> {
    pub item_id: ItemId,
    pub item: D::Item,
}

/// The verdict of a protocol state on a new item.
pub enum HandleNewItemResult<D> {
    /// The item is part of the state now.
    Accepted,
    /// The item cannot be added before the dependencies that the
    /// specification names have been.
    DependenciesMissing(D),
}

/// A protocol state as the synchronizer sees it.  What it answers is a
/// function of the state and of what it is asked.
pub trait ProtocolState: Sized {
    /// How the state describes what an item depends on.
    type DepSpec: DependencySpec;

    /// The item that the state supplies for `dep`, if it holds one.
    open spec fn held(&self, dep: ItemId) -> Option<ItemWithId<Self::DepSpec>> {
        arbitrary()
    }

    /// The verdict of the state on the item `item_id`.
    open spec fn verdict(
        &self,
        item_id: ItemId,
        item: <Self::DepSpec as DependencySpec>::Item,
    ) -> HandleNewItemResult<Self::DepSpec> {
        arbitrary()
    }

    /// The state after the item `item_id` was offered to it.
    open spec fn offered(
        &self,
        item_id: ItemId,
        item: <Self::DepSpec as DependencySpec>::Item,
    ) -> Self {
        arbitrary()
    }

    /// Supplies an item that the state holds and that a peer may be missing.
    fn get_dependency(&self, dep: &ItemId) -> (r: Option<ItemWithId<Self::DepSpec>>)
        ensures
            r == self.held(*dep),
    ;

    /// Attempts to add an item.  Where dependencies are missing, returns a
    /// fresh specification that names them all.
    fn handle_new_item(
        &mut self,
        item_id: ItemId,
        item: <Self::DepSpec as DependencySpec>::Item,
    ) -> (r: HandleNewItemResult<Self::DepSpec>)
        ensures
            r == old(self).verdict(item_id, item),
            *final(self) == old(self).offered(item_id, item),
    ;
}

/// A message between the synchronizers of two peers.
pub enum SynchronizerMessage<D: DependencySpec> {
    /// The sender asks for the item with this identifier.
    RequestDependency(ItemId),
    /// The sender announces an item.
    NewItem(ItemId, D::Item),
    /// The sender supplies an item that it was asked for.
    DependencyResolved(ItemWithId<D>),
}

/// An item that the protocol state could not take yet, with what it waits for.
pub struct QueuedItem<D: DependencySpec> {
    /// The peer that sent the item, and that is asked for its dependencies.
    pub peer: NodeId,
    /// The item's identifier.
    pub item_id: ItemId,
    /// The item.
    pub item: D::Item,
    /// The dependencies that are outstanding.
    pub spec: D,
    /// The dependency that the peer was asked for on behalf of this item
    /// and that has not arrived.
    pub waiting_for: Option<ItemId>,
}

/// The content of a [`QueuedItem`].
pub struct QueuedView<I> {
    pub peer: NodeId,
    pub item_id: ItemId,
    pub item: I,
    /// The dependencies that have not been handed out.
    pub to_request: Set<ItemId>,
    /// The dependencies that were handed out and have not arrived.
    pub requested: Set<ItemId>,
    pub waiting_for: Option<ItemId>,
}

impl<D: DependencySpec> View for QueuedItem<D> {
    type V = QueuedView<D::Item>;

    open spec fn view(&self) -> QueuedView<D::Item> {
        QueuedView {
            peer: self.peer,
            item_id: self.item_id,
            item: self.item,
            to_request: self.spec.to_request(),
            requested: self.spec.requested(),
            waiting_for: self.waiting_for,
        }
    }
}

impl<I> QueuedView<I> {
    /// Whether the item depends on `dep`, and `dep` has not arrived.
    pub open spec fn depends_on(self, dep: ItemId) -> bool {
        self.to_request.contains(dep) || self.requested.contains(dep)
    }

    /// Whether a dependency of the item is outstanding, and the dependency
    /// that its peer was asked for is one that was handed out.
    pub open spec fn pending(self) -> bool {
        &&& !(self.to_request == Set::<ItemId>::empty() && self.requested == Set::<
            ItemId,
        >::empty())
        &&& self.waiting_for matches Some(dep) ==> self.requested.contains(dep)
    }

    /// Whether the item is rightly queued: it is pending, and where its
    /// peer is asked for nothing on its behalf, nothing is left to ask for.
    pub open spec fn wf(self) -> bool {
        &&& self.pending()
        &&& self.waiting_for is None ==> self.to_request == Set::<ItemId>::empty()
    }

    /// Whether `self` is the item `other` with the same dependencies outstanding.
    pub open spec fn same_item(self, other: Self) -> bool {
        &&& self.peer == other.peer
        &&& self.item_id == other.item_id
        &&& self.item == other.item
        &&& forall|dep: ItemId| #[trigger] self.depends_on(dep) == other.depends_on(dep)
    }
}

/// Whether the item `item_id` of `peer` waits for its dependencies.
pub open spec fn in_flight<I>(queue: Seq<QueuedView<I>>, peer: NodeId, item_id: ItemId) -> bool {
    exists|i: int|
        0 <= i < queue.len() && (#[trigger] queue[i]).peer == peer && queue[i].item_id == item_id
}

/// Whether no item of a peer is queued twice.
pub open spec fn queue_distinct<I>(queue: Seq<QueuedView<I>>) -> bool {
    forall|i: int, j: int|
        0 <= i < j < queue.len() ==> !((#[trigger] queue[i]).peer == (#[trigger] queue[j]).peer
            && queue[i].item_id == queue[j].item_id)
}

/// Whether no item of a peer is queued twice and every item is pending.
pub open spec fn queue_pending<I>(queue: Seq<QueuedView<I>>) -> bool {
    &&& queue_distinct(queue)
    &&& forall|i: int| 0 <= i < queue.len() ==> (#[trigger] queue[i]).pending()
}

/// Whether the queue is as it should be between two messages: no item of
/// a peer is queued twice, every item has a dependency outstanding, and
/// every item's peer is asked for one of them unless all were handed out.
pub open spec fn queue_wf<I>(queue: Seq<QueuedView<I>>) -> bool {
    &&& queue_distinct(queue)
    &&& forall|i: int| 0 <= i < queue.len() ==> (#[trigger] queue[i]).wf()
}

/// Whether `peer` has been asked for the dependency `dep` on behalf of a
/// queued item, and has not supplied it.
pub open spec fn asked<I>(queue: Seq<QueuedView<I>>, peer: NodeId, dep: ItemId) -> bool {
    exists|i: int|
        0 <= i < queue.len() && (#[trigger] queue[i]).peer == peer && queue[i].waiting_for == Some(
            dep,
        )
}

/// Whether some queued item depends on the item `dep`.
pub open spec fn outstanding<I>(queue: Seq<QueuedView<I>>, dep: ItemId) -> bool {
    exists|i: int| 0 <= i < queue.len() && (#[trigger] queue[i]).depends_on(dep)
}

/// Whether `queued` is an item of the queue `before`.
pub open spec fn came_from<I>(queued: QueuedView<I>, before: Seq<QueuedView<I>>) -> bool {
    exists|j: int|
        0 <= j < before.len() && (#[trigger] before[j]).peer == queued.peer && before[j].item_id
            == queued.item_id && before[j].item == queued.item
}

/// Whether every item of `queue` is an item of `before`.
pub open spec fn all_from<I>(queue: Seq<QueuedView<I>>, before: Seq<QueuedView<I>>) -> bool {
    forall|i: int| 0 <= i < queue.len() ==> came_from(#[trigger] queue[i], before)
}

/// The place of the item `item_id` of `peer` in the queue.
pub open spec fn place<I>(queue: Seq<QueuedView<I>>, peer: NodeId, item_id: ItemId) -> int {
    choose|j: int|
        0 <= j < queue.len() && (#[trigger] queue[j]).peer == peer && queue[j].item_id == item_id
}

/// Whether the items of `queue` stand in the order in which they stand in
/// `before`.
pub open spec fn in_order<I>(queue: Seq<QueuedView<I>>, before: Seq<QueuedView<I>>) -> bool {
    forall|a: int, b: int|
        0 <= a < b < queue.len() ==> place(before, (#[trigger] queue[a]).peer, queue[a].item_id)
            < place(before, (#[trigger] queue[b]).peer, queue[b].item_id)
}

/// Whether every message asks for a dependency.
pub open spec fn all_requests<D: DependencySpec>(
    messages: Seq<(NodeId, SynchronizerMessage<D>)>,
) -> bool {
    forall|i: int| 0 <= i < messages.len() ==> (#[trigger] messages[i]).1 is RequestDependency
}

/// The protocol state after the items of `offers` were offered to it, one
/// after the other.  An offer names the peer that sent the item, the
/// item's identifier and the item.
pub open spec fn offered_all<P: ProtocolState>(
    state: P,
    offers: Seq<(NodeId, ItemId, <P::DepSpec as DependencySpec>::Item)>,
) -> P
    decreases offers.len(),
{
    if offers.len() == 0 {
        state
    } else {
        offered_all(state, offers.drop_last()).offered(offers.last().1, offers.last().2)
    }
}

/// Whether the verdict lets the item leave the queue: the item was
/// accepted, or the state names nothing that it waits for.
pub open spec fn settled<D: DependencySpec>(verdict: HandleNewItemResult<D>) -> bool {
    match verdict {
        HandleNewItemResult::Accepted => true,
        HandleNewItemResult::DependenciesMissing(spec) => spec.to_request() == Set::<
            ItemId,
        >::empty() && spec.requested() == Set::<ItemId>::empty(),
    }
}

/// Whether the offer number `k` was settled by the protocol state's verdict.
pub open spec fn offer_settled<P: ProtocolState>(
    state: P,
    offers: Seq<(NodeId, ItemId, <P::DepSpec as DependencySpec>::Item)>,
    k: int,
) -> bool {
    settled(offered_all(state, offers.take(k)).verdict(offers[k].1, offers[k].2))
}

/// Whether the item `item_id` of `peer` was offered, and the verdict on
/// the offer settled it.
pub open spec fn left_by_offer<P: ProtocolState>(
    state: P,
    offers: Seq<(NodeId, ItemId, <P::DepSpec as DependencySpec>::Item)>,
    peer: NodeId,
    item_id: ItemId,
) -> bool {
    exists|k: int|
        0 <= k < offers.len() && (#[trigger] offers[k]).0 == peer && offers[k].1 == item_id
            && offer_settled(state, offers, k)
}

/// Whether the item `item_id` of `peer` is among the offers.
pub open spec fn was_offered<I>(
    offers: Seq<(NodeId, ItemId, I)>,
    peer: NodeId,
    item_id: ItemId,
) -> bool {
    exists|k: int|
        0 <= k < offers.len() && (#[trigger] offers[k]).0 == peer && offers[k].1 == item_id
}

/// Whether the offer is a copy of an item of the queue, under that item's
/// peer and identifier.
pub open spec fn offer_of<I: Clone>(queue: Seq<QueuedView<I>>, offer: (NodeId, ItemId, I)) -> bool {
    exists|j: int|
        0 <= j < queue.len() && (#[trigger] queue[j]).peer == offer.0 && queue[j].item_id
            == offer.1 && vstd::pervasive::cloned(queue[j].item, offer.2)
}

/// Whether the protocol state accepted the offer number `k`.
pub open spec fn offer_accepted<P: ProtocolState>(
    state: P,
    offers: Seq<(NodeId, ItemId, <P::DepSpec as DependencySpec>::Item)>,
    k: int,
) -> bool {
    offered_all(state, offers.take(k)).verdict(offers[k].1, offers[k].2) is Accepted
}

/// Whether the item `dep` was offered and accepted before the offer number `k`.
pub open spec fn accepted_before<P: ProtocolState>(
    state: P,
    offers: Seq<(NodeId, ItemId, <P::DepSpec as DependencySpec>::Item)>,
    k: int,
    dep: ItemId,
) -> bool {
    exists|a: int|
        0 <= a < k && a < offers.len() && (#[trigger] offers[a]).1 == dep && offer_accepted(
            state,
            offers,
            a,
        )
}

/// Whether the item `item_id` of `peer` was offered before the offer number `k`.
pub open spec fn offered_before<I>(
    offers: Seq<(NodeId, ItemId, I)>,
    k: int,
    peer: NodeId,
    item_id: ItemId,
) -> bool {
    exists|b: int|
        0 <= b < k && b < offers.len() && (#[trigger] offers[b]).0 == peer && offers[b].1
            == item_id
}

/// The verdict of the protocol state on the offer number `k`.
pub open spec fn offer_verdict<P: ProtocolState>(
    state: P,
    offers: Seq<(NodeId, ItemId, <P::DepSpec as DependencySpec>::Item)>,
    k: int,
) -> HandleNewItemResult<P::DepSpec> {
    offered_all(state, offers.take(k)).verdict(offers[k].1, offers[k].2)
}

/// Whether the verdict names the item `dep` as a missing dependency.
pub open spec fn named<D: DependencySpec>(verdict: HandleNewItemResult<D>, dep: ItemId) -> bool {
    verdict matches HandleNewItemResult::DependenciesMissing(spec) && (spec.to_request().contains(
        dep,
    ) || spec.requested().contains(dep))
}

/// Whether the offer number `last` is the last offer of the item
/// `item_id` of `peer` before the offer number `k`.
pub open spec fn last_offer<I>(
    offers: Seq<(NodeId, ItemId, I)>,
    last: int,
    k: int,
    peer: NodeId,
    item_id: ItemId,
) -> bool {
    &&& 0 <= last < k
    &&& last < offers.len()
    &&& offers[last].0 == peer
    &&& offers[last].1 == item_id
    &&& forall|b: int|
        last < b < k && b < offers.len() ==> !((#[trigger] offers[b]).0 == peer && offers[b].1
            == item_id)
}

/// Whether the offer number `k` was due: it is a copy of an item of the
/// queue, under that item's peer and identifier, and everything that the
/// item depended on had arrived.  For an item that had not been offered
/// before, that is what it depended on in the queue, which arrived as the
/// item `item_id` or as an item that was offered and accepted before.
/// For an item that had been offered before, that is what the verdict on
/// the last of these offers named, which arrived as an item that was
/// offered and accepted before.
pub open spec fn offer_due<P: ProtocolState>(
    queue: Seq<QueuedView<<P::DepSpec as DependencySpec>::Item>>,
    state: P,
    item_id: ItemId,
    offers: Seq<(NodeId, ItemId, <P::DepSpec as DependencySpec>::Item)>,
    k: int,
) -> bool where <P::DepSpec as DependencySpec>::Item: Clone {
    exists|j: int|
        0 <= j < queue.len() && (#[trigger] queue[j]).peer == offers[k].0 && queue[j].item_id
            == offers[k].1 && vstd::pervasive::cloned(queue[j].item, offers[k].2) && if offered_before(
            offers,
            k,
            offers[k].0,
            offers[k].1,
        ) {
            exists|last: int| #[trigger]
                last_offer(offers, last, k, offers[k].0, offers[k].1) && forall|dep: ItemId| #[trigger]
                    named(offer_verdict(state, offers, last), dep) ==> accepted_before(
                        state,
                        offers,
                        k,
                        dep,
                    )
        } else {
            forall|dep: ItemId| #[trigger]
                queue[j].depends_on(dep) ==> dep == item_id || accepted_before(
                    state,
                    offers,
                    k,
                    dep,
                )
        }
}

/// Whether the item `queued` depends on what it was last said to depend
/// on, and on nothing else, but for what has arrived.  For an item that has not been offered,
/// that is what it depended on while the queue was `origin`, of which the
/// item `item_id` and the items that were offered and accepted have
/// arrived.  For an item that has been offered, that is what the verdict
/// on the last offer named, of which the items that were offered and
/// accepted have arrived.
pub open spec fn covered<P: ProtocolState>(
    queued: QueuedView<<P::DepSpec as DependencySpec>::Item>,
    origin: Seq<QueuedView<<P::DepSpec as DependencySpec>::Item>>,
    state: P,
    item_id: ItemId,
    offers: Seq<(NodeId, ItemId, <P::DepSpec as DependencySpec>::Item)>,
) -> bool {
    if was_offered(offers, queued.peer, queued.item_id) {
        exists|last: int| #[trigger]
            last_offer(offers, last, offers.len() as int, queued.peer, queued.item_id)
                && (forall|dep: ItemId| #[trigger]
                named(offer_verdict(state, offers, last), dep) ==> queued.depends_on(dep)
                    || accepted_before(state, offers, offers.len() as int, dep))
                && (forall|dep: ItemId| #[trigger]
                queued.depends_on(dep) ==> named(offer_verdict(state, offers, last), dep))
    } else {
        exists|j: int|
            0 <= j < origin.len() && (#[trigger] origin[j]).peer == queued.peer
                && origin[j].item_id == queued.item_id && origin[j].item == queued.item
                && (forall|dep: ItemId| #[trigger]
                origin[j].depends_on(dep) ==> queued.depends_on(dep) || dep == item_id
                    || accepted_before(state, offers, offers.len() as int, dep))
                && (forall|dep: ItemId| #[trigger]
                queued.depends_on(dep) ==> origin[j].depends_on(dep))
    }
}

/// Whether the offer is of one of the first `n` items of `queue`.
pub open spec fn offer_among<I>(offer: (NodeId, ItemId, I), queue: Seq<QueuedView<I>>, n: int) -> bool {
    exists|j: int|
        0 <= j < n && j < queue.len() && (#[trigger] queue[j]).peer == offer.0 && queue[j].item_id
            == offer.1
}

/// Whether the peer of `queued` was asked for what the item waits for
/// while the queue was `before`.
pub open spec fn asked_before<I>(queued: QueuedView<I>, before: Seq<QueuedView<I>>) -> bool {
    queued.waiting_for matches Some(dep) ==> asked(before, queued.peer, dep)
}

/// Whether the item does not depend on `item_id`, unless it is among the offers.
pub open spec fn struck<I>(
    queued: QueuedView<I>,
    offers: Seq<(NodeId, ItemId, I)>,
    item_id: ItemId,
) -> bool {
    queued.depends_on(item_id) ==> was_offered(offers, queued.peer, queued.item_id)
}

/// Whether the item `item_id` of `peer` is among the offers from the
/// offer number `a` on.
pub open spec fn offered_from<I>(
    offers: Seq<(NodeId, ItemId, I)>,
    a: int,
    peer: NodeId,
    item_id: ItemId,
) -> bool {
    exists|b: int|
        a <= b < offers.len() && (#[trigger] offers[b]).0 == peer && offers[b].1 == item_id
}

/// Whether the item `dep` was offered and accepted, and the item
/// `item_id` of `peer` has not been offered since.
pub open spec fn accepted_since<P: ProtocolState>(
    state: P,
    offers: Seq<(NodeId, ItemId, <P::DepSpec as DependencySpec>::Item)>,
    peer: NodeId,
    item_id: ItemId,
    dep: ItemId,
) -> bool {
    exists|a: int|
        0 <= a < offers.len() && (#[trigger] offers[a]).1 == dep && offer_accepted(
            state,
            offers,
            a,
        ) && !offered_from(offers, a, peer, item_id)
}

/// Whether the item `queued` has been told of every item that was
/// accepted since its dependencies were last named, but for the items of
/// `waiting` and for `current`.
pub open spec fn told_but<P: ProtocolState>(
    queued: QueuedView<<P::DepSpec as DependencySpec>::Item>,
    state: P,
    offers: Seq<(NodeId, ItemId, <P::DepSpec as DependencySpec>::Item)>,
    waiting: Seq<ItemId>,
    current: Option<ItemId>,
) -> bool {
    forall|dep: ItemId|
        (#[trigger] queued.depends_on(dep)) && accepted_since(
            state,
            offers,
            queued.peer,
            queued.item_id,
            dep,
        ) ==> waiting.contains(dep) || current == Some(dep)
}

/// Whether the item `queued` has been told of every item that was
/// accepted since its dependencies were last named: it depends on none of
/// them.
pub open spec fn told<P: ProtocolState>(
    queued: QueuedView<<P::DepSpec as DependencySpec>::Item>,
    state: P,
    offers: Seq<(NodeId, ItemId, <P::DepSpec as DependencySpec>::Item)>,
) -> bool {
    forall|dep: ItemId| #[trigger]
        queued.depends_on(dep) ==> !accepted_since(
            state,
            offers,
            queued.peer,
            queued.item_id,
            dep,
        )
}

/// Whether the message asks the peer of a queued item for the dependency
/// that the item waits for.
pub open spec fn request_backed<D: DependencySpec>(
    queue: Seq<QueuedView<D::Item>>,
    message: (NodeId, SynchronizerMessage<D>),
) -> bool {
    exists|i: int|
        0 <= i < queue.len() && (#[trigger] queue[i]).peer == message.0
            && queue[i].waiting_for is Some && message.1 == SynchronizerMessage::<
            D,
        >::RequestDependency(queue[i].waiting_for->Some_0)
}

/// Whether a message asks `peer` for the dependency `dep`.
pub open spec fn request_sent<D: DependencySpec>(
    messages: Seq<(NodeId, SynchronizerMessage<D>)>,
    peer: NodeId,
    dep: ItemId,
) -> bool {
    exists|k: int|
        0 <= k < messages.len() && #[trigger] messages[k] == (
            peer,
            SynchronizerMessage::<D>::RequestDependency(dep),
        )
}

/// Whether the peer of `queued` has been asked for what the item waits
/// for: while the queue was `before`, or by one of the messages.
pub open spec fn request_known<D: DependencySpec>(
    before: Seq<QueuedView<D::Item>>,
    messages: Seq<(NodeId, SynchronizerMessage<D>)>,
    queued: QueuedView<D::Item>,
) -> bool {
    queued.waiting_for matches Some(dep) ==> asked(before, queued.peer, dep) || request_sent(
        messages,
        queued.peer,
        dep,
    )
}

/// Whether the messages are the requests that the queue `queue_after`
/// calls for and that had not been made while the queue was `queue`: each
/// message asks the peer of a queued item for what that item waits for,
/// the peer of every queued item has been asked for what the item waits
/// for, and no request is made twice.
pub open spec fn requests_made<D: DependencySpec>(
    queue: Seq<QueuedView<D::Item>>,
    queue_after: Seq<QueuedView<D::Item>>,
    out: Seq<(NodeId, SynchronizerMessage<D>)>,
) -> bool {
    &&& forall|k: int| 0 <= k < out.len() ==> request_backed(queue_after, #[trigger] out[k])
    &&& forall|i: int|
        0 <= i < queue_after.len() ==> request_known(queue, out, #[trigger] queue_after[i])
    &&& once_each(out)
}

/// Whether no message occurs twice.
pub open spec fn once_each<D: DependencySpec>(out: Seq<(NodeId, SynchronizerMessage<D>)>) -> bool {
    forall|a: int, b: int| 0 <= a < b < out.len() ==> #[trigger] out[a] != #[trigger] out[b]
}

/// What the offers `offers` made of the queue and the protocol state after
/// the item `item_id` was accepted.
///
/// The protocol state is the one after all the offers.  Every offer is a
/// copy of a queued item, and was due.  An item has left the queue only
/// on an offer that the state's verdict settled.  An item that is still
/// queued depends on what it depended on before, or on what the verdict
/// on its last offer named, but for what has arrived; so an item that
/// still depends on `item_id` is one that was offered, and of which the
/// state has named its dependencies anew.  No item that is still queued
/// depends on an item that was accepted after the last offer of it.
pub open spec fn fan_out_with<P: ProtocolState>(
    queue: Seq<QueuedView<<P::DepSpec as DependencySpec>::Item>>,
    state: P,
    item_id: ItemId,
    queue_after: Seq<QueuedView<<P::DepSpec as DependencySpec>::Item>>,
    state_after: P,
    offers: Seq<(NodeId, ItemId, <P::DepSpec as DependencySpec>::Item)>,
) -> bool where <P::DepSpec as DependencySpec>::Item: Clone {
    &&& state_after == offered_all(state, offers)
    &&& forall|k: int| 0 <= k < offers.len() ==> offer_of(queue, #[trigger] offers[k])
    &&& forall|k: int|
        0 <= k < offers.len() ==> #[trigger] offer_due(queue, state, item_id, offers, k)
    &&& forall|j: int|
        0 <= j < queue.len() ==> in_flight(
            queue_after,
            (#[trigger] queue[j]).peer,
            queue[j].item_id,
        ) || left_by_offer(state, offers, queue[j].peer, queue[j].item_id)
    &&& forall|i: int|
        0 <= i < queue_after.len() ==> struck(#[trigger] queue_after[i], offers, item_id)
    &&& forall|i: int|
        0 <= i < queue_after.len() ==> covered(
            #[trigger] queue_after[i],
            queue,
            state,
            item_id,
            offers,
        )
    &&& forall|i: int| 0 <= i < queue_after.len() ==> told(#[trigger] queue_after[i], state, offers)
}

/// What telling the queued items that the item `item_id` was accepted
/// amounts to, from the queue `queue` and the protocol state `state` to
/// `queue_after` and `state_after`, with the messages `out` to send.
///
/// The accepted item is struck from what the queued items depend on.  An
/// item with nothing outstanding is offered to the protocol state again,
/// and leaves the queue where the state accepts it; the items that it
/// releases in turn are treated likewise.  The items that stay keep their
/// order.  The peer of an item that is
/// left without a request is asked for the item's next dependency.  Where
/// no item depended on `item_id`, nothing changes and nothing is sent.
pub open spec fn fan_out_done<P: ProtocolState>(
    queue: Seq<QueuedView<<P::DepSpec as DependencySpec>::Item>>,
    state: P,
    item_id: ItemId,
    queue_after: Seq<QueuedView<<P::DepSpec as DependencySpec>::Item>>,
    state_after: P,
    out: Seq<(NodeId, SynchronizerMessage<P::DepSpec>)>,
) -> bool where <P::DepSpec as DependencySpec>::Item: Clone {
    &&& exists|offers: Seq<(NodeId, ItemId, <P::DepSpec as DependencySpec>::Item)>|
        #[trigger] fan_out_with(queue, state, item_id, queue_after, state_after, offers)
    &&& all_from(queue_after, queue)
    &&& in_order(queue_after, queue)
    &&& requests_made(queue, queue_after, out)
    &&& !outstanding(queue, item_id) ==> queue_after == queue && out.len() == 0 && state_after
        == state
}

/// What queueing an item of `sender` with the fresh specification `spec`
/// of its missing dependencies amounts to, from the queue `queue` to
/// `queue_after`, with the messages `out` to send.
///
/// An item that is queued for `sender` already, or of which nothing is
/// outstanding, is not queued.  Any other item is queued behind the
/// others; one dependency is handed out, if one is left to hand out, and
/// `sender` is asked for it, unless it has been asked for it already.
pub open spec fn item_queued<D: DependencySpec>(
    queue: Seq<QueuedView<D::Item>>,
    sender: NodeId,
    item_id: ItemId,
    spec: D,
    queue_after: Seq<QueuedView<D::Item>>,
    out: Seq<(NodeId, SynchronizerMessage<D>)>,
) -> bool {
    if in_flight(queue, sender, item_id) || (spec.to_request() == Set::<ItemId>::empty()
        && spec.requested() == Set::<ItemId>::empty()) {
        queue_after == queue && out.len() == 0
    } else {
        &&& queue_after.len() == queue.len() + 1
        &&& queue_after.drop_last() == queue
        &&& queue_after.last().peer == sender
        &&& queue_after.last().item_id == item_id
        &&& if spec.to_request() == Set::<ItemId>::empty() {
            &&& queue_after.last().waiting_for is None
            &&& queue_after.last().to_request == spec.to_request()
            &&& queue_after.last().requested == spec.requested()
            &&& out.len() == 0
        } else {
            &&& queue_after.last().waiting_for matches Some(dep)
            &&& spec.to_request().contains(dep)
            &&& queue_after.last().to_request == spec.to_request().remove(dep)
            &&& queue_after.last().requested == spec.requested().insert(dep)
            &&& out == if asked(queue, sender, dep) {
                Seq::<(NodeId, SynchronizerMessage<D>)>::empty()
            } else {
                seq![(sender, SynchronizerMessage::<D>::RequestDependency(dep))]
            }
        }
    }
}

/// What handling the item `item_id` that `sender` sent amounts to, from
/// the queue `queue` and the protocol state `state` to `queue_after` and
/// `state_after`, with the messages `out` to send.
///
/// The item is offered to the protocol state.  Where the state accepts it,
/// the queued items are told.  Where dependencies are missing, a copy of
/// the item is queued with the specification that the state gave.
pub open spec fn new_item_handled<P: ProtocolState>(
    queue: Seq<QueuedView<<P::DepSpec as DependencySpec>::Item>>,
    state: P,
    sender: NodeId,
    item_id: ItemId,
    item: <P::DepSpec as DependencySpec>::Item,
    queue_after: Seq<QueuedView<<P::DepSpec as DependencySpec>::Item>>,
    state_after: P,
    out: Seq<(NodeId, SynchronizerMessage<P::DepSpec>)>,
) -> bool where <P::DepSpec as DependencySpec>::Item: Clone {
    match state.verdict(item_id, item) {
        HandleNewItemResult::Accepted => fan_out_done(
            queue,
            state.offered(item_id, item),
            item_id,
            queue_after,
            state_after,
            out,
        ),
        HandleNewItemResult::DependenciesMissing(spec) => {
            &&& state_after == state.offered(item_id, item)
            &&& item_queued(queue, sender, item_id, spec, queue_after, out)
            &&& queue_after.len() > queue.len() ==> vstd::pervasive::cloned(
                item,
                queue_after.last().item,
            )
        },
    }
}

/// The layer between the peers and a protocol state.
pub struct Synchronizer<P: ProtocolState> {
    queue: Vec<QueuedItem<P::DepSpec>>,
}

impl<P: ProtocolState> View for Synchronizer<P> {
    type V = Seq<QueuedView<<P::DepSpec as DependencySpec>::Item>>;

    closed spec fn view(&self) -> Seq<QueuedView<<P::DepSpec as DependencySpec>::Item>> {
        Seq::new(self.queue@.len(), |i: int| self.queue@[i]@)
    }
}

impl<P: ProtocolState> Synchronizer<P> {
    /// Creates a synchronizer with nothing queued.
    pub fn new() -> (r: Self)
        ensures
            r@ == Seq::<QueuedView<<P::DepSpec as DependencySpec>::Item>>::empty(),
    {
        let sync = Synchronizer { queue: Vec::new() };
        assert(sync@ =~= Seq::<QueuedView<<P::DepSpec as DependencySpec>::Item>>::empty());
        sync
    }

    /// Returns the number of items that wait for their dependencies.
    pub fn len(&self) -> (r: usize)
        ensures
            r == self@.len(),
    {
        self.queue.len()
    }

    /// Returns whether the item `item_id` of `peer` waits for its dependencies.
    pub fn is_in_flight(&self, peer: NodeId, item_id: ItemId) -> (r: bool)
        ensures
            r == in_flight(self@, peer, item_id),
    {
        let mut i: usize = 0;
        while i < self.queue.len()
            invariant
                i <= self.queue@.len(),
                forall|j: int|
                    0 <= j < i ==> !((#[trigger] self@[j]).peer == peer && self@[j].item_id
                        == item_id),
            decreases self.queue@.len() - i,
        {
            if self.queue[i].peer == peer && self.queue[i].item_id == item_id {
                assert(self@[i as int].peer == peer && self@[i as int].item_id == item_id);
                return true;
            }
            i += 1;
        }
        false
    }

    /// Returns whether `peer` has been asked for the dependency `dep` and has not supplied it.
    pub fn is_requested(&self, peer: NodeId, dep: ItemId) -> (r: bool)
        ensures
            r == asked(self@, peer, dep),
    {
        let mut i: usize = 0;
        while i < self.queue.len()
            invariant
                i <= self.queue@.len(),
                forall|j: int|
                    0 <= j < i ==> !((#[trigger] self@[j]).peer == peer && self@[j].waiting_for
                        == Some(dep)),
            decreases self.queue@.len() - i,
        {
            if self.queue[i].peer == peer {
                if let Some(wanted) = self.queue[i].waiting_for {
                    if wanted == dep {
                        assert(self@[i as int].peer == peer && self@[i as int].waiting_for
                            == Some(dep));
                        return true;
                    }
                }
            }
            i += 1;
        }
        false
    }

    /// Queues an item of `peer` that the protocol state could not take,
    /// with the fresh specification `spec` of what is missing, and returns
    /// the request for the first dependency that is to be sent.
    ///
    /// An item of the peer that is queued already, or one of which nothing
    /// is outstanding, is not queued.  No request is made where the peer
    /// has been asked for the dependency already.
    pub fn enqueue(
        &mut self,
        peer: NodeId,
        item_id: ItemId,
        item: <P::DepSpec as DependencySpec>::Item,
        spec: P::DepSpec,
    ) -> (r: Vec<(NodeId, SynchronizerMessage<P::DepSpec>)>)
        ensures
            queue_wf(old(self)@) ==> queue_wf(final(self)@),
            all_requests(r@),
            item_queued(old(self)@, peer, item_id, spec, final(self)@, r@),
            final(self)@.len() > old(self)@.len() ==> final(self)@.last().item == item,
    {
        let mut out: Vec<(NodeId, SynchronizerMessage<P::DepSpec>)> = Vec::new();
        if self.is_in_flight(peer, item_id) {
            return out;
        }
        let mut spec = spec;
        let next = spec.next_dependency();
        match next {
            Some(dep) => {
                if !self.is_requested(peer, dep) {
                    out.push((peer, SynchronizerMessage::RequestDependency(dep)));
                }
            },
            None => {
                if spec.all_resolved() {
                    return out;
                }
            },
        }
        let queued = QueuedItem { peer, item_id, item, spec, waiting_for: next };
        self.queue.push(queued);
        proof {
            assert(self@ =~= old(self)@.push(queued@));
            assert(self@.drop_last() =~= old(self)@);
            if let Some(dep) = next {
                assert(queued@.requested.contains(dep));
            }
            assert(queued@.wf());
            if queue_wf(old(self)@) {
                assert forall|i: int| 0 <= i < self@.len() implies (#[trigger] self@[i]).wf() by {
                    if i < old(self)@.len() {
                        assert(self@[i] == old(self)@[i]);
                    }
                }
            }
            if out@.len() == 0 {
                assert(out@ =~= Seq::<(NodeId, SynchronizerMessage<P::DepSpec>)>::empty());
            } else {
                assert(out@ =~= seq![
                    (peer, SynchronizerMessage::<P::DepSpec>::RequestDependency(next->Some_0)),
                ]);
            }
        }
        out
    }

    /// Answers a peer's request for a dependency, given what the protocol
    /// state holds of it: the item goes to the peer that asked; where the
    /// state does not hold it, nothing is sent.
    pub fn reply_to_request(sender: NodeId, found: Option<ItemWithId<P::DepSpec>>) -> (r: Vec<
        (NodeId, SynchronizerMessage<P::DepSpec>),
    >)
        ensures
            match found {
                Some(item) => r@ == seq![
                    (sender, SynchronizerMessage::<P::DepSpec>::DependencyResolved(item)),
                ],
                None => r@.len() == 0,
            },
    {
        let mut out: Vec<(NodeId, SynchronizerMessage<P::DepSpec>)> = Vec::new();
        if let Some(item) = found {
            out.push((sender, SynchronizerMessage::DependencyResolved(item)));
        }
        out
    }
}

impl<P: ProtocolState> Synchronizer<P> where <P::DepSpec as DependencySpec>::Item: Clone {
    /// Tells every queued item that the item `current` was accepted, and
    /// offers the items with nothing outstanding to the protocol state
    /// again.  The identifiers of those that the state accepts join
    /// `accepted`.
    #[verifier::rlimit(100)]
    fn tell_all(
        &mut self,
        state: &mut P,
        current: ItemId,
        accepted: &mut Vec<ItemId>,
        Ghost(origin): Ghost<Seq<QueuedView<<P::DepSpec as DependencySpec>::Item>>>,
        Ghost(origin_state): Ghost<P>,
        Ghost(item_id): Ghost<ItemId>,
        Ghost(first): Ghost<bool>,
        Ghost(offers_in): Ghost<Seq<(NodeId, ItemId, <P::DepSpec as DependencySpec>::Item)>>,
    ) -> (r: Ghost<Seq<(NodeId, ItemId, <P::DepSpec as DependencySpec>::Item)>>)
        requires
            queue_pending(old(self)@),
            all_from(old(self)@, origin),
            in_order(old(self)@, origin),
            forall|m: int|
                0 <= m < old(self)@.len() ==> asked_before(#[trigger] old(self)@[m], origin),
            *old(state) == offered_all(origin_state, offers_in),
            forall|k: int| 0 <= k < offers_in.len() ==> offer_of(origin, #[trigger] offers_in[k]),
            forall|k: int|
                0 <= k < offers_in.len() ==> #[trigger] offer_due(
                    origin,
                    origin_state,
                    item_id,
                    offers_in,
                    k,
                ),
            forall|m: int|
                0 <= m < old(self)@.len() ==> covered(
                    #[trigger] old(self)@[m],
                    origin,
                    origin_state,
                    item_id,
                    offers_in,
                ),
            !first ==> forall|m: int|
                0 <= m < old(self)@.len() ==> struck(#[trigger] old(self)@[m], offers_in, item_id),
            first ==> current == item_id && offers_in.len() == 0,
            !first ==> accepted_before(origin_state, offers_in, offers_in.len() as int, current),
            forall|m: int|
                0 <= m < old(self)@.len() ==> told_but(
                    #[trigger] old(self)@[m],
                    origin_state,
                    offers_in,
                    old(accepted)@,
                    Some(current),
                ),
        ensures
            forall|m: int|
                0 <= m < final(self)@.len() ==> told_but(
                    #[trigger] final(self)@[m],
                    origin_state,
                    r@,
                    final(accepted)@,
                    None,
                ),
            forall|k: int|
                0 <= k < r@.len() ==> #[trigger] offer_due(origin, origin_state, item_id, r@, k),
            forall|m: int|
                0 <= m < final(self)@.len() ==> covered(
                    #[trigger] final(self)@[m],
                    origin,
                    origin_state,
                    item_id,
                    r@,
                ),
            final(accepted)@.len() >= old(accepted)@.len(),
            forall|x: int|
                0 <= x < old(accepted)@.len() ==> #[trigger] final(accepted)@[x] == old(
                    accepted,
                )@[x],
            forall|x: int|
                old(accepted)@.len() <= x < final(accepted)@.len() ==> accepted_before(
                    origin_state,
                    r@,
                    r@.len() as int,
                    #[trigger] final(accepted)@[x],
                ),
            is_prefix(offers_in, r@),
            queue_pending(final(self)@),
            all_from(final(self)@, origin),
            in_order(final(self)@, origin),
            forall|m: int|
                0 <= m < final(self)@.len() ==> asked_before(#[trigger] final(self)@[m], origin),
            forall|m: int|
                0 <= m < final(self)@.len() ==> struck(#[trigger] final(self)@[m], r@, item_id),
            *final(state) == offered_all(origin_state, r@),
            forall|k: int| 0 <= k < r@.len() ==> offer_of(origin, #[trigger] r@[k]),
            forall|j: int|
                0 <= j < old(self)@.len() ==> in_flight(
                    final(self)@,
                    (#[trigger] old(self)@[j]).peer,
                    old(self)@[j].item_id,
                ) || left_by_offer(
                    origin_state,
                    r@,
                    old(self)@[j].peer,
                    old(self)@[j].item_id,
                ),
            final(self)@.len() + final(accepted)@.len() <= old(self)@.len() + old(accepted)@.len(),
            !outstanding(old(self)@, current) ==> final(self)@ == old(self)@ && r@ == offers_in
                && final(accepted)@ == old(accepted)@,
    {
        let ghost start = self@;
        let ghost mut offers = offers_in;
        let mut all: Vec<QueuedItem<P::DepSpec>> = Vec::new();
        core::mem::swap(&mut self.queue, &mut all);
        let ghost items = all@;
        proof {
            assert(self@ =~= start.take(0));
            assert(offers_in.take(offers_in.len() as int) =~= offers_in);
        }
            for queued in iter: all
                invariant
                    iter.seq() == items,
                    start.len() == items.len(),
                    forall|m: int| 0 <= m < items.len() ==> start[m] == (#[trigger] items[m])@,
                    first ==> current == item_id,
                    offers_in.take(offers_in.len() as int) == offers_in,
                    queue_pending(start),
                    all_from(start, origin),
                    forall|m: int|
                        0 <= m < start.len() ==> asked_before(#[trigger] start[m], origin),
                    !first ==> forall|m: int|
                        0 <= m < start.len() ==> struck(#[trigger] start[m], offers_in, item_id),
                    is_prefix(offers_in, offers),
                    queue_pending(self@),
                    all_from(self@, origin),
                    in_order(self@, start),
                    forall|m: int|
                        0 <= m < self@.len() ==> among(#[trigger] self@[m], start, iter.index()),
                    forall|m: int|
                        0 <= m < self@.len() ==> asked_before(#[trigger] self@[m], origin),
                    forall|m: int|
                        0 <= m < self@.len() ==> struck(#[trigger] self@[m], offers, item_id),
                    *state == offered_all(origin_state, offers),
                    forall|k: int|
                        0 <= k < offers.len() ==> offer_of(origin, #[trigger] offers[k]),
                    forall|k: int|
                        0 <= k < offers.len() ==> #[trigger] offer_due(
                            origin,
                            origin_state,
                            item_id,
                            offers,
                            k,
                        ),
                    forall|m: int|
                        iter.index() <= m < start.len() ==> covered(
                            #[trigger] start[m],
                            origin,
                            origin_state,
                            item_id,
                            offers,
                        ),
                    first ==> forall|b: int|
                        0 <= b < offers.len() ==> offer_among(
                            #[trigger] offers[b],
                            start,
                            iter.index(),
                        ),
                    !first ==> accepted_before(
                        origin_state,
                        offers,
                        offers.len() as int,
                        current,
                    ),
                    forall|m: int|
                        0 <= m < self@.len() ==> covered(
                            #[trigger] self@[m],
                            origin,
                            origin_state,
                            item_id,
                            offers,
                        ),
                    accepted@.len() >= old(accepted)@.len(),
                    forall|x: int|
                        0 <= x < old(accepted)@.len() ==> #[trigger] accepted@[x] == old(
                            accepted,
                        )@[x],
                    forall|x: int|
                        old(accepted)@.len() <= x < accepted@.len() ==> accepted_before(
                            origin_state,
                            offers,
                            offers.len() as int,
                            #[trigger] accepted@[x],
                        ),
                    forall|j: int|
                        0 <= j < iter.index() ==> in_flight(
                            self@,
                            (#[trigger] start[j]).peer,
                            start[j].item_id,
                        ) || left_by_offer(origin_state, offers, start[j].peer, start[j].item_id),
                    self@.len() + accepted@.len() + (start.len() - iter.index()) <= start.len()
                        + old(accepted)@.len(),
                    forall|m: int|
                        iter.index() <= m < start.len() ==> told_but(
                            #[trigger] start[m],
                            origin_state,
                            offers,
                            accepted@,
                            Some(current),
                        ),
                    forall|m: int|
                        0 <= m < self@.len() ==> told_but(
                            #[trigger] self@[m],
                            origin_state,
                            offers,
                            accepted@,
                            None,
                        ),
                    !outstanding(start, current) ==> self@ == start.take(iter.index()) && offers
                        == offers_in && accepted@ == old(accepted)@,
            {
                let ghost index = iter.index();
                let ghost entry = queued@;
                let ghost queue_before = self@;
                let ghost offers_before = offers;
                let mut queued = queued;
                let mut keep = true;
                proof {
                    assert(entry == start[index]);
                    assert(entry.pending());
                    assert(came_from(start[index], origin));
                    assert(asked_before(start[index], origin));
                }
                let hit = queued.spec.resolve_dependency(current);
                let ghost accepted_before_offer = accepted@;
                proof {
                    assert(covered(start[index], origin, origin_state, item_id, offers));
                }
                if hit {
                    let waits = match queued.waiting_for {
                        Some(dep) => dep == current,
                        None => false,
                    };
                    if waits {
                        queued.waiting_for = None;
                    }
                    if queued.spec.all_resolved() {
                        // Nothing is outstanding: offer the item again.
                        let ghost resolved = queued@;
                        let copy = queued.item.clone();
                        let result = state.handle_new_item(queued.item_id, copy);
                        proof {
                            if first {
                                lemma_not_offered(offers_before, start, index);
                            }
                            lemma_covered_struck(
                                entry,
                                resolved,
                                origin,
                                origin_state,
                                item_id,
                                offers_before,
                                current,
                            );
                            assert(came_from(resolved, origin)) by {
                                let j = choose|j: int|
                                    0 <= j < origin.len() && (#[trigger] origin[j]).peer
                                        == entry.peer && origin[j].item_id == entry.item_id
                                        && origin[j].item == entry.item;
                                assert(origin[j].peer == resolved.peer);
                            }
                            lemma_offer_due(
                                resolved,
                                origin,
                                origin_state,
                                item_id,
                                offers_before,
                                copy,
                            );
                            offers = offers_before.push((queued.peer, queued.item_id, copy));
                            assert(offers.drop_last() =~= offers_before);
                            lemma_offer_made(origin_state, offers_before, offers);
                            assert(offers.last() == (queued.peer, queued.item_id, copy));
                            assert(offer_of(origin, offers.last())) by {
                                let j = choose|j: int|
                                    0 <= j < origin.len() && (#[trigger] origin[j]).peer
                                        == entry.peer && origin[j].item_id == entry.item_id
                                        && origin[j].item == entry.item;
                                assert(origin[j].peer == offers.last().0);
                            }
                            assert forall|k: int| 0 <= k < offers.len() implies offer_of(
                                origin,
                                #[trigger] offers[k],
                            ) by {
                                if k < offers_before.len() {
                                    assert(offers[k] == offers_before[k]);
                                }
                            }
                            lemma_prefix_trans(offers_in, offers_before, offers);
                            assert(was_offered(offers, entry.peer, entry.item_id)) by {
                                assert(offers[offers.len() - 1].0 == entry.peer);
                            }
                        }
                        match result {
                            HandleNewItemResult::Accepted => {
                                accepted.push(queued.item_id);
                                keep = false;
                            },
                            HandleNewItemResult::DependenciesMissing(spec) => {
                                if spec.all_resolved() {
                                    keep = false;
                                } else {
                                    queued.spec = spec;
                                    queued.waiting_for = None;
                                }
                            },
                        }
                        proof {
                            if !keep {
                                assert(offer_settled(origin_state, offers, offers.len() - 1));
                                assert(left_by_offer(
                                    origin_state,
                                    offers,
                                    entry.peer,
                                    entry.item_id,
                                )) by {
                                    assert(offers[offers.len() - 1].0 == entry.peer);
                                }
                            }
                        }
                    }
                }
                proof {
                    // What held of the offers before holds of them now.
                    assert(is_prefix(offers_before, offers)) by {
                        assert(offers_before.take(offers_before.len() as int) =~= offers_before);
                    }
                    lemma_round_grows(
                        origin,
                        origin_state,
                        item_id,
                        offers_before,
                        offers,
                        start,
                        index,
                        queue_before,
                        first,
                        current,
                        accepted_before_offer,
                        old(accepted)@.len() as int,
                    );
                    if accepted@.len() > accepted_before_offer.len() {
                        assert(accepted@[accepted@.len() - 1] == offers[offers.len() - 1].1);
                    }
                    lemma_told_round(
                        origin_state,
                        offers_before,
                        offers,
                        start,
                        index,
                        queue_before,
                        accepted_before_offer,
                        accepted@,
                        current,
                    );
                    if accepted@.len() > accepted_before_offer.len() {
                        assert(offer_accepted(origin_state, offers, offers.len() - 1));
                        assert(accepted_before(
                            origin_state,
                            offers,
                            offers.len() as int,
                            accepted@[accepted@.len() - 1],
                        )) by {
                            assert(offers[offers.len() - 1].1 == accepted@[accepted@.len() - 1]);
                        }
                    }
                    assert forall|x: int|
                        old(accepted)@.len() <= x < accepted@.len() implies accepted_before(
                        origin_state,
                        offers,
                        offers.len() as int,
                        #[trigger] accepted@[x],
                    ) by {
                        if x < accepted_before_offer.len() {
                            assert(accepted@[x] == accepted_before_offer[x]);
                        }
                    }
                    assert forall|m: int| 0 <= m < queue_before.len() implies struck(
                        #[trigger] queue_before[m],
                        offers,
                        item_id,
                    ) by {
                        assert(struck(queue_before[m], offers_before, item_id));
                        lemma_offers_grow(
                            origin_state,
                            offers_before,
                            offers,
                            queue_before[m].peer,
                            queue_before[m].item_id,
                        );
                    }
                    assert forall|j: int| 0 <= j < index implies in_flight(
                        queue_before,
                        (#[trigger] start[j]).peer,
                        start[j].item_id,
                    ) || left_by_offer(origin_state, offers, start[j].peer, start[j].item_id) by {
                        lemma_offers_grow(
                            origin_state,
                            offers_before,
                            offers,
                            start[j].peer,
                            start[j].item_id,
                        );
                    }
                    if hit {
                        assert(entry.depends_on(current));
                        assert(outstanding(start, current));
                    }
                }
                if keep {
                    proof {
                        let kept = queued@;
                        assert(kept.peer == entry.peer && kept.item_id == entry.item_id
                            && kept.item == entry.item);
                        if !hit {
                            assert(kept.to_request =~= entry.to_request);
                            assert(kept.requested =~= entry.requested);
                            assert(kept == entry);
                        }
                        assert(kept.pending());
                        assert(came_from(kept, origin)) by {
                            let j = choose|j: int|
                                0 <= j < origin.len() && (#[trigger] origin[j]).peer
                                    == entry.peer && origin[j].item_id == entry.item_id
                                    && origin[j].item == entry.item;
                            assert(origin[j].peer == kept.peer);
                        }
                        assert(asked_before(kept, origin));
                        if offers == offers_before {
                            if first {
                                lemma_not_offered(offers_before, start, index);
                            }
                            lemma_covered_struck(
                                entry,
                                kept,
                                origin,
                                origin_state,
                                item_id,
                                offers_before,
                                current,
                            );
                            assert(accepted@ == accepted_before_offer);
                            lemma_told_kept(
                                entry,
                                kept,
                                origin_state,
                                offers,
                                accepted@,
                                current,
                            );
                        } else {
                            assert(offers.take(offers.len() - 1) =~= offers_before);
                            lemma_covered_named(kept, origin, origin_state, item_id, offers);
                            lemma_told_offered(kept, origin_state, offers, accepted@);
                        }
                        assert(told_but(kept, origin_state, offers, accepted@, None));
                        assert(covered(kept, origin, origin_state, item_id, offers));
                        assert(struck(kept, offers, item_id)) by {
                            if kept.depends_on(item_id) && !was_offered(
                                offers,
                                kept.peer,
                                kept.item_id,
                            ) {
                                assert(entry.depends_on(item_id));
                                assert(current != item_id);
                                assert(struck(start[index], offers_in, item_id));
                                lemma_offers_grow(
                                    origin_state,
                                    offers_in,
                                    offers,
                                    kept.peer,
                                    kept.item_id,
                                );
                            }
                        }
                        lemma_push_item(queue_before, kept, start, index);
                        lemma_push_order(queue_before, kept, start, index);
                    }
                    self.queue.push(queued);
                    proof {
                        assert(self@ =~= queue_before.push(queued@));
                        assert forall|m: int| 0 <= m < self@.len() implies told_but(
                            #[trigger] self@[m],
                            origin_state,
                            offers,
                            accepted@,
                            None,
                        ) by {
                            if m < queue_before.len() {
                                assert(self@[m] == queue_before[m]);
                            }
                        }
                        assert forall|m: int| 0 <= m < self@.len() implies among(
                            #[trigger] self@[m],
                            start,
                            index + 1,
                        ) && asked_before(self@[m], origin) && struck(self@[m], offers, item_id)
                            && came_from(self@[m], origin) && self@[m].pending() && covered(
                            self@[m],
                            origin,
                            origin_state,
                            item_id,
                            offers,
                        ) by {
                            if m < queue_before.len() {
                                assert(self@[m] == queue_before[m]);
                                assert(among(queue_before[m], start, index));
                                lemma_among_more(queue_before[m], start, index);
                            } else {
                                assert(start[index].peer == self@[m].peer);
                            }
                        }
                        assert forall|j: int| 0 <= j < index + 1 implies in_flight(
                            self@,
                            (#[trigger] start[j]).peer,
                            start[j].item_id,
                        ) || left_by_offer(
                            origin_state,
                            offers,
                            start[j].peer,
                            start[j].item_id,
                        ) by {
                            if j < index {
                                if in_flight(queue_before, start[j].peer, start[j].item_id) {
                                    lemma_push_in_flight(
                                        queue_before,
                                        queued@,
                                        start[j].peer,
                                        start[j].item_id,
                                    );
                                }
                            } else {
                                assert(self@[self@.len() - 1].peer == start[j].peer);
                            }
                        }
                        if !outstanding(start, current) {
                            assert(self@ =~= start.take(index + 1));
                        }
                    }
                } else {
                    proof {
                        assert forall|m: int| 0 <= m < self@.len() implies among(
                            #[trigger] self@[m],
                            start,
                            index + 1,
                        ) by {
                            lemma_among_more(self@[m], start, index);
                        }
                    }
                }
            }
        proof {
            assert(start.take(start.len() as int) =~= start);
            lemma_order_trans(self@, start, origin);
        }
        Ghost(offers)
    }

    /// Asks the peer of every item that is left without a request for the
    /// item's next dependency, unless the peer has been asked for it
    /// already.  Returns the requests to send.
    #[verifier::rlimit(100)]
    fn ask_next(
        &mut self,
        Ghost(origin): Ghost<Seq<QueuedView<<P::DepSpec as DependencySpec>::Item>>>,
    ) -> (r: Vec<(NodeId, SynchronizerMessage<P::DepSpec>)>)
        requires
            queue_pending(old(self)@),
            forall|m: int|
                0 <= m < old(self)@.len() ==> asked_before(#[trigger] old(self)@[m], origin),
        ensures
            queue_wf(final(self)@),
            all_requests(r@),
            final(self)@.len() == old(self)@.len(),
            forall|m: int|
                0 <= m < final(self)@.len() ==> (#[trigger] final(self)@[m]).same_item(
                    old(self)@[m],
                ),
            requests_made(origin, final(self)@, r@),
            queue_wf(old(self)@) ==> final(self)@ == old(self)@ && r@.len() == 0,
    {
        let ghost mid = self@;
        let mut out: Vec<(NodeId, SynchronizerMessage<P::DepSpec>)> = Vec::new();
        let mut i: usize = 0;
        proof {
            assert forall|m: int| 0 <= m < self@.len() implies request_known(
                origin,
                out@,
                #[trigger] self@[m],
            ) by {
                assert(asked_before(self@[m], origin));
            }
        }
        while i < self.queue.len()
            invariant
                queue_pending(mid),
                i <= self@.len() == mid.len(),
                forall|m: int| 0 <= m < self@.len() ==> (#[trigger] self@[m]).same_item(mid[m]),
                forall|m: int| 0 <= m < self@.len() ==> (#[trigger] self@[m]).pending(),
                forall|m: int| 0 <= m < i ==> (#[trigger] self@[m]).wf(),
                forall|m: int| i <= m < self@.len() ==> #[trigger] self@[m] == mid[m],
                all_requests(out@),
                forall|k: int| 0 <= k < out@.len() ==> request_backed(self@, #[trigger] out@[k]),
                forall|m: int|
                    0 <= m < self@.len() ==> request_known(origin, out@, #[trigger] self@[m]),
                once_each(out@),
                queue_wf(mid) ==> self@ == mid && out@.len() == 0,
            decreases self@.len() - i,
        {
            let idle = self.queue[i].waiting_for.is_none();
            let ghost before = self@;
            let ghost sent = out@;
            if idle {
                let mut queued = self.queue.remove(i);
                let ghost entry = queued@;
                let ghost rest = self@;
                proof {
                    assert(rest =~= before.remove(i as int));
                    assert(entry == before[i as int]);
                    lemma_rest_asked(before, i as int);
                }
                let next = queued.spec.next_dependency();
                if let Some(dep) = next {
                    if !self.is_requested(queued.peer, dep) {
                        out.push((queued.peer, SynchronizerMessage::RequestDependency(dep)));
                        proof {
                            lemma_new_request(before, i as int, sent, out@, dep);
                        }
                    }
                    queued.waiting_for = next;
                }
                proof {
                    let kept = queued@;
                    if next is None {
                        assert(kept.to_request =~= entry.to_request);
                        assert(kept.requested =~= entry.requested);
                        assert(kept == entry);
                    }
                    assert(kept.same_item(mid[i as int])) by {
                        assert(entry.same_item(mid[i as int]));
                        assert forall|dep: ItemId| #[trigger]
                            kept.depends_on(dep) == mid[i as int].depends_on(dep) by {
                            assert(entry.depends_on(dep) == mid[i as int].depends_on(dep));
                        }
                    }
                    if let Some(dep) = next {
                        assert(kept.requested.contains(dep));
                    }
                    assert(entry.pending());
                    assert(kept.wf());
                    assert(request_known(origin, out@, kept)) by {
                        if let Some(dep) = next {
                            if asked(rest, kept.peer, dep) {
                                let m = choose|m: int|
                                    0 <= m < before.len() && (#[trigger] before[m]).peer
                                        == kept.peer && before[m].waiting_for == Some(dep);
                                assert(request_known(origin, sent, before[m]));
                                if request_sent(sent, kept.peer, dep) {
                                    lemma_sent_more(sent, out@, kept.peer, dep);
                                }
                            } else {
                                assert(out@[out@.len() - 1] == (
                                    kept.peer,
                                    SynchronizerMessage::<P::DepSpec>::RequestDependency(dep),
                                ));
                            }
                        }
                    }
                }
                self.queue.insert(i, queued);
                proof {
                    let kept = queued@;
                    assert(self@ =~= rest.insert(i as int, kept));
                    assert(self@ =~= before.update(i as int, kept));
                    assert forall|m: int| 0 <= m < self@.len() implies (#[trigger] self@[m]).same_item(
                        mid[m],
                    ) && self@[m].pending() && request_known(origin, out@, self@[m]) by {
                        if m != i {
                            assert(self@[m] == before[m]);
                            assert(request_known(origin, sent, before[m]));
                            if let Some(dep) = before[m].waiting_for {
                                if request_sent(sent, before[m].peer, dep) {
                                    lemma_sent_more(sent, out@, before[m].peer, dep);
                                }
                            }
                        }
                    }
                    assert forall|k: int| 0 <= k < out@.len() implies request_backed(
                        self@,
                        #[trigger] out@[k],
                    ) by {
                        if k < sent.len() {
                            assert(out@[k] == sent[k]);
                            assert(request_backed(before, sent[k]));
                            let m = choose|m: int|
                                0 <= m < before.len() && (#[trigger] before[m]).peer == sent[k].0
                                    && before[m].waiting_for is Some && sent[k].1
                                    == SynchronizerMessage::<P::DepSpec>::RequestDependency(
                                    before[m].waiting_for->Some_0,
                                );
                            assert(m != i);
                            assert(self@[m] == before[m]);
                        } else {
                            assert(self@[i as int].peer == out@[k].0);
                        }
                    }
                    if queue_wf(mid) {
                        assert(before[i as int].wf());
                        assert(next is None);
                        assert(self@ =~= mid);
                    }
                }
            } else {
                proof {
                    assert(self@[i as int].wf());
                }
            }
            i += 1;
        }
        proof {
            lemma_same_items(self@, mid);
        }
        out
    }

    /// Tells every queued item that the protocol state has accepted the
    /// item `item_id`.  An item that depended on it and has no outstanding
    /// dependency left is offered to the protocol state again; where that
    /// accepts it, the queued items are told in turn.  In the end the peer
    /// of every item that is left without a request is asked for the
    /// item's next dependency.  Returns the requests to send.
    #[verifier::rlimit(100)]
    #[verifier::spinoff_prover]
    pub fn item_accepted(&mut self, state: &mut P, item_id: ItemId) -> (r: Vec<
        (NodeId, SynchronizerMessage<P::DepSpec>),
    >)
        requires
            queue_wf(old(self)@),
        ensures
            queue_wf(final(self)@),
            all_requests(r@),
            fan_out_done(old(self)@, *old(state), item_id, final(self)@, *final(state), r@),
    {
        let mut accepted: Vec<ItemId> = Vec::new();
        accepted.push(item_id);
        let ghost mut offers: Seq<(NodeId, ItemId, <P::DepSpec as DependencySpec>::Item)> =
            Seq::empty();
        let ghost mut first = true;
        proof {
            lemma_queue_from_itself(self@);
            lemma_order_itself(self@);
            assert forall|m: int| 0 <= m < self@.len() implies covered(
                #[trigger] self@[m],
                old(self)@,
                *old(state),
                item_id,
                offers,
            ) by {
                assert(old(self)@[m].peer == self@[m].peer);
            }
        }
        while accepted.len() > 0
            invariant
                queue_wf(old(self)@),
                queue_pending(self@),
                all_from(self@, old(self)@),
                in_order(self@, old(self)@),
                forall|m: int|
                    0 <= m < self@.len() ==> asked_before(#[trigger] self@[m], old(self)@),
                *state == offered_all(*old(state), offers),
                forall|k: int| 0 <= k < offers.len() ==> offer_of(old(self)@, #[trigger] offers[k]),
                forall|k: int|
                    0 <= k < offers.len() ==> #[trigger] offer_due(
                        old(self)@,
                        *old(state),
                        item_id,
                        offers,
                        k,
                    ),
                forall|m: int|
                    0 <= m < self@.len() ==> covered(
                        #[trigger] self@[m],
                        old(self)@,
                        *old(state),
                        item_id,
                        offers,
                    ),
                forall|x: int|
                    0 <= x < accepted@.len() ==> (first && #[trigger] accepted@[x] == item_id)
                        || accepted_before(
                        *old(state),
                        offers,
                        offers.len() as int,
                        accepted@[x],
                    ),
                forall|j: int|
                    0 <= j < old(self)@.len() ==> in_flight(
                        self@,
                        (#[trigger] old(self)@[j]).peer,
                        old(self)@[j].item_id,
                    ) || left_by_offer(
                        *old(state),
                        offers,
                        old(self)@[j].peer,
                        old(self)@[j].item_id,
                    ),
                !first ==> forall|m: int|
                    0 <= m < self@.len() ==> struck(#[trigger] self@[m], offers, item_id),
                forall|m: int|
                    0 <= m < self@.len() ==> told_but(
                        #[trigger] self@[m],
                        *old(state),
                        offers,
                        accepted@,
                        None,
                    ),
                first ==> self@ == old(self)@ && offers.len() == 0 && accepted@ == seq![item_id],
                !outstanding(old(self)@, item_id) ==> self@ == old(self)@ && offers.len() == 0 && (
                first || accepted@.len() == 0),
            decreases self@.len() + accepted@.len(),
        {
            let ghost listed = accepted@;
            let current = accepted.pop().unwrap();
            let ghost start = self@;
            let ghost start_offers = offers;
            let ghost waiting = accepted@;
            proof {
                assert forall|m: int| 0 <= m < self@.len() implies told_but(
                    #[trigger] self@[m],
                    *old(state),
                    offers,
                    waiting,
                    Some(current),
                ) by {
                    lemma_told_popped(self@[m], *old(state), offers, listed);
                }
                assert forall|x: int| 0 <= x < waiting.len() implies accepted_before(
                    *old(state),
                    offers,
                    offers.len() as int,
                    #[trigger] waiting[x],
                ) by {
                    assert(!first);
                }
            }
            let more = self.tell_all(
                state,
                current,
                &mut accepted,
                Ghost(old(self)@),
                Ghost(*old(state)),
                Ghost(item_id),
                Ghost(first),
                Ghost(offers),
            );
            proof {
                lemma_round_done(old(self)@, *old(state), start, start_offers, self@, more@);
                assert forall|x: int| 0 <= x < accepted@.len() implies accepted_before(
                    *old(state),
                    more@,
                    more@.len() as int,
                    #[trigger] accepted@[x],
                ) by {
                    if x < waiting.len() {
                        assert(accepted@[x] == waiting[x]);
                        lemma_accepted_grow(
                            *old(state),
                            start_offers,
                            more@,
                            start_offers.len() as int,
                            more@.len() as int,
                            waiting[x],
                        );
                    }
                }
                offers = more@;
                first = false;
            }
        }
        let ghost mid = self@;
        let out = self.ask_next(Ghost(old(self)@));
        proof {
            lemma_fan_out(old(self)@, *old(state), item_id, mid, self@, *state, offers);
            lemma_order_same(self@, mid, old(self)@);
        }
        out
    }

    /// Acts on the verdict `result` of the protocol state on the item
    /// `item_id` that `sender` sent.  An accepted item is announced to the
    /// queued items.  An item with missing dependencies is queued, and
    /// `sender` is asked for the first of them.  Returns the messages to
    /// send.
    pub fn handle_result(
        &mut self,
        state: &mut P,
        sender: NodeId,
        item_id: ItemId,
        item: <P::DepSpec as DependencySpec>::Item,
        result: HandleNewItemResult<P::DepSpec>,
    ) -> (r: Vec<(NodeId, SynchronizerMessage<P::DepSpec>)>)
        requires
            queue_wf(old(self)@),
        ensures
            queue_wf(final(self)@),
            all_requests(r@),
            match result {
                HandleNewItemResult::Accepted => fan_out_done(
                    old(self)@,
                    *old(state),
                    item_id,
                    final(self)@,
                    *final(state),
                    r@,
                ),
                HandleNewItemResult::DependenciesMissing(spec) => {
                    &&& *final(state) == *old(state)
                    &&& item_queued(old(self)@, sender, item_id, spec, final(self)@, r@)
                    &&& final(self)@.len() > old(self)@.len() ==> final(self)@.last().item == item
                },
            },
    {
        match result {
            HandleNewItemResult::Accepted => self.item_accepted(state, item_id),
            HandleNewItemResult::DependenciesMissing(spec) => self.enqueue(
                sender,
                item_id,
                item,
                spec,
            ),
        }
    }

    /// Offers the item `item_id` that `sender` sent to the protocol state.
    /// An accepted item is announced to the queued items.  Of an item with
    /// missing dependencies a copy is queued, and `sender` is asked for the
    /// first of them.  Returns the messages to send.
    pub fn handle_new_item(
        &mut self,
        state: &mut P,
        sender: NodeId,
        item_id: ItemId,
        item: <P::DepSpec as DependencySpec>::Item,
    ) -> (r: Vec<(NodeId, SynchronizerMessage<P::DepSpec>)>)
        requires
            queue_wf(old(self)@),
        ensures
            queue_wf(final(self)@),
            all_requests(r@),
            new_item_handled(
                old(self)@,
                *old(state),
                sender,
                item_id,
                item,
                final(self)@,
                *final(state),
                r@,
            ),
    {
        let copy = item.clone();
        let result = state.handle_new_item(item_id, item);
        self.handle_result(state, sender, item_id, copy, result)
    }

    /// Handles a message from the peer `sender`, and returns the messages
    /// to send, each with the peer it is for.
    ///
    /// A request for a dependency is answered from the protocol state, if
    /// that holds the item, and changes nothing.  An item, whether
    /// announced or supplied on request, is offered to the protocol state.
    pub fn handle_message(
        &mut self,
        state: &mut P,
        sender: NodeId,
        msg: SynchronizerMessage<P::DepSpec>,
    ) -> (r: Vec<(NodeId, SynchronizerMessage<P::DepSpec>)>)
        requires
            queue_wf(old(self)@),
        ensures
            queue_wf(final(self)@),
            match msg {
                SynchronizerMessage::RequestDependency(dep) => {
                    &&& final(self)@ == old(self)@
                    &&& *final(state) == *old(state)
                    &&& r@ == match old(state).held(dep) {
                        Some(item) => seq![
                            (sender, SynchronizerMessage::<P::DepSpec>::DependencyResolved(item)),
                        ],
                        None => Seq::<(NodeId, SynchronizerMessage<P::DepSpec>)>::empty(),
                    }
                },
                SynchronizerMessage::NewItem(item_id, item) => {
                    &&& all_requests(r@)
                    &&& new_item_handled(
                        old(self)@,
                        *old(state),
                        sender,
                        item_id,
                        item,
                        final(self)@,
                        *final(state),
                        r@,
                    )
                },
                SynchronizerMessage::DependencyResolved(item_with_id) => {
                    &&& all_requests(r@)
                    &&& new_item_handled(
                        old(self)@,
                        *old(state),
                        sender,
                        item_with_id.item_id,
                        item_with_id.item,
                        final(self)@,
                        *final(state),
                        r@,
                    )
                },
            },
    {
        match msg {
            SynchronizerMessage::RequestDependency(dep) => {
                let found = state.get_dependency(&dep);
                let out = Self::reply_to_request(sender, found);
                assert(out@.len() == 0 ==> out@ =~= Seq::<
                    (NodeId, SynchronizerMessage<P::DepSpec>),
                >::empty());
                out
            },
            SynchronizerMessage::NewItem(item_id, item) => self.handle_new_item(
                state,
                sender,
                item_id,
                item,
            ),
            SynchronizerMessage::DependencyResolved(item_with_id) => self.handle_new_item(
                state,
                sender,
                item_with_id.item_id,
                item_with_id.item,
            ),
        }
    }
}

/// After a round, an item that was queued at first is queued or has left
/// on an offer, if that held before the round and the round kept it so.
pub proof fn lemma_round_done<P: ProtocolState>(
    origin: Seq<QueuedView<<P::DepSpec as DependencySpec>::Item>>,
    origin_state: P,
    start: Seq<QueuedView<<P::DepSpec as DependencySpec>::Item>>,
    start_offers: Seq<(NodeId, ItemId, <P::DepSpec as DependencySpec>::Item)>,
    after: Seq<QueuedView<<P::DepSpec as DependencySpec>::Item>>,
    offers: Seq<(NodeId, ItemId, <P::DepSpec as DependencySpec>::Item)>,
)
    requires
        is_prefix(start_offers, offers),
        forall|j: int|
            0 <= j < origin.len() ==> in_flight(start, (#[trigger] origin[j]).peer, origin[j].item_id)
                || left_by_offer(origin_state, start_offers, origin[j].peer, origin[j].item_id),
        forall|j: int|
            0 <= j < start.len() ==> in_flight(after, (#[trigger] start[j]).peer, start[j].item_id)
                || left_by_offer(origin_state, offers, start[j].peer, start[j].item_id),
    ensures
        forall|j: int|
            0 <= j < origin.len() ==> in_flight(after, (#[trigger] origin[j]).peer, origin[j].item_id)
                || left_by_offer(origin_state, offers, origin[j].peer, origin[j].item_id),
{
    assert forall|j: int| 0 <= j < origin.len() implies in_flight(
        after,
        (#[trigger] origin[j]).peer,
        origin[j].item_id,
    ) || left_by_offer(origin_state, offers, origin[j].peer, origin[j].item_id) by {
        let peer = origin[j].peer;
        let id = origin[j].item_id;
        if in_flight(start, peer, id) {
            let m = choose|m: int|
                0 <= m < start.len() && (#[trigger] start[m]).peer == peer && start[m].item_id
                    == id;
            assert(in_flight(after, start[m].peer, start[m].item_id) || left_by_offer(
                origin_state,
                offers,
                start[m].peer,
                start[m].item_id,
            ));
        } else {
            lemma_offers_grow(origin_state, start_offers, offers, peer, id);
        }
    }
}

/// What held of the queue before the requests were made holds of the
/// queue with the same items afterwards.
pub proof fn lemma_fan_out<P: ProtocolState>(
    origin: Seq<QueuedView<<P::DepSpec as DependencySpec>::Item>>,
    origin_state: P,
    item_id: ItemId,
    mid: Seq<QueuedView<<P::DepSpec as DependencySpec>::Item>>,
    after: Seq<QueuedView<<P::DepSpec as DependencySpec>::Item>>,
    state_after: P,
    offers: Seq<(NodeId, ItemId, <P::DepSpec as DependencySpec>::Item)>,
) where <P::DepSpec as DependencySpec>::Item: Clone
    requires
        queue_distinct(mid),
        after.len() == mid.len(),
        forall|m: int| 0 <= m < after.len() ==> (#[trigger] after[m]).same_item(mid[m]),
        all_from(mid, origin),
        state_after == offered_all(origin_state, offers),
        forall|k: int| 0 <= k < offers.len() ==> offer_of(origin, #[trigger] offers[k]),
        forall|k: int|
            0 <= k < offers.len() ==> #[trigger] offer_due(origin, origin_state, item_id, offers, k),
        forall|j: int|
            0 <= j < origin.len() ==> in_flight(mid, (#[trigger] origin[j]).peer, origin[j].item_id)
                || left_by_offer(origin_state, offers, origin[j].peer, origin[j].item_id),
        forall|m: int| 0 <= m < mid.len() ==> struck(#[trigger] mid[m], offers, item_id),
        forall|m: int|
            0 <= m < mid.len() ==> covered(#[trigger] mid[m], origin, origin_state, item_id, offers),
        forall|m: int|
            0 <= m < mid.len() ==> told_but(
                #[trigger] mid[m],
                origin_state,
                offers,
                Seq::<ItemId>::empty(),
                None,
            ),
    ensures
        all_from(after, origin),
        fan_out_with(origin, origin_state, item_id, after, state_after, offers),
{
    lemma_same_items(after, mid);
    assert forall|m: int| 0 <= m < after.len() implies covered(
        #[trigger] after[m],
        origin,
        origin_state,
        item_id,
        offers,
    ) by {
        assert(after[m].same_item(mid[m]));
        assert(covered(mid[m], origin, origin_state, item_id, offers));
        lemma_covered_same(mid[m], after[m], origin, origin_state, item_id, offers);
    }
    assert forall|m: int| 0 <= m < after.len() implies told(
        #[trigger] after[m],
        origin_state,
        offers,
    ) by {
        assert(after[m].same_item(mid[m]));
        assert(told_but(mid[m], origin_state, offers, Seq::<ItemId>::empty(), None));
        assert forall|dep: ItemId| #[trigger] after[m].depends_on(dep) implies !accepted_since(
            origin_state,
            offers,
            after[m].peer,
            after[m].item_id,
            dep,
        ) by {
            assert(after[m].depends_on(dep) == mid[m].depends_on(dep));
            assert(mid[m].depends_on(dep));
            assert(!Seq::<ItemId>::empty().contains(dep));
        }
    }
    assert forall|m: int| 0 <= m < after.len() implies came_from(#[trigger] after[m], origin) by {
        assert(after[m].same_item(mid[m]));
        assert(came_from(mid[m], origin));
        let j = choose|j: int|
            0 <= j < origin.len() && (#[trigger] origin[j]).peer == mid[m].peer
                && origin[j].item_id == mid[m].item_id && origin[j].item == mid[m].item;
        assert(origin[j].peer == after[m].peer);
    }
    assert forall|j: int| 0 <= j < origin.len() implies in_flight(
        after,
        (#[trigger] origin[j]).peer,
        origin[j].item_id,
    ) || left_by_offer(origin_state, offers, origin[j].peer, origin[j].item_id) by {
        if in_flight(mid, origin[j].peer, origin[j].item_id) {
            assert(in_flight(after, origin[j].peer, origin[j].item_id));
        }
    }
    assert forall|m: int| 0 <= m < after.len() implies struck(
        #[trigger] after[m],
        offers,
        item_id,
    ) by {
        assert(after[m].same_item(mid[m]));
        assert(struck(mid[m], offers, item_id));
        assert(after[m].depends_on(item_id) == mid[m].depends_on(item_id));
    }
}

/// What was accepted before an offer was accepted before a later offer,
/// and among more offers.
pub proof fn lemma_accepted_grow<P: ProtocolState>(
    state: P,
    fewer: Seq<(NodeId, ItemId, <P::DepSpec as DependencySpec>::Item)>,
    more: Seq<(NodeId, ItemId, <P::DepSpec as DependencySpec>::Item)>,
    k: int,
    later: int,
    dep: ItemId,
)
    requires
        is_prefix(fewer, more),
        k <= later,
        accepted_before(state, fewer, k, dep),
    ensures
        accepted_before(state, more, later, dep),
{
    let a = choose|a: int|
        0 <= a < k && a < fewer.len() && (#[trigger] fewer[a]).1 == dep && offer_accepted(
            state,
            fewer,
            a,
        );
    assert(more.take(fewer.len() as int)[a] == more[a]);
    assert(more.take(a) =~= fewer.take(a)) by {
        assert(more.take(fewer.len() as int).take(a) =~= more.take(a));
    }
    assert(more[a].1 == dep && offer_accepted(state, more, a));
}

/// The verdict on an offer and the place of the last offer of an item are
/// the same among more offers.
pub proof fn lemma_offer_same<P: ProtocolState>(
    state: P,
    fewer: Seq<(NodeId, ItemId, <P::DepSpec as DependencySpec>::Item)>,
    more: Seq<(NodeId, ItemId, <P::DepSpec as DependencySpec>::Item)>,
    k: int,
)
    requires
        is_prefix(fewer, more),
        0 <= k < fewer.len(),
    ensures
        more[k] == fewer[k],
        offer_verdict(state, more, k) == offer_verdict(state, fewer, k),
{
    assert(more.take(fewer.len() as int)[k] == more[k]);
    assert(more.take(k) =~= fewer.take(k)) by {
        assert(more.take(fewer.len() as int).take(k) =~= more.take(k));
    }
}

/// The last offer of an item before an offer is the last among more offers.
pub proof fn lemma_last_offer_same<I>(
    fewer: Seq<(NodeId, ItemId, I)>,
    more: Seq<(NodeId, ItemId, I)>,
    last: int,
    k: int,
    peer: NodeId,
    item_id: ItemId,
)
    requires
        is_prefix(fewer, more),
        k <= fewer.len(),
        last_offer(fewer, last, k, peer, item_id),
    ensures
        last_offer(more, last, k, peer, item_id),
{
    assert forall|b: int| 0 <= b < fewer.len() implies #[trigger] more[b] == fewer[b] by {
        assert(more.take(fewer.len() as int)[b] == more[b]);
    }
}

/// An offer that was due is due among more offers.
pub proof fn lemma_due_grows<P: ProtocolState>(
    queue: Seq<QueuedView<<P::DepSpec as DependencySpec>::Item>>,
    state: P,
    item_id: ItemId,
    fewer: Seq<(NodeId, ItemId, <P::DepSpec as DependencySpec>::Item)>,
    more: Seq<(NodeId, ItemId, <P::DepSpec as DependencySpec>::Item)>,
    k: int,
) where <P::DepSpec as DependencySpec>::Item: Clone
    requires
        is_prefix(fewer, more),
        0 <= k < fewer.len(),
        offer_due(queue, state, item_id, fewer, k),
    ensures
        offer_due(queue, state, item_id, more, k),
{
    lemma_offer_same(state, fewer, more, k);
    assert forall|b: int| 0 <= b < fewer.len() implies #[trigger] more[b] == fewer[b] by {
        assert(more.take(fewer.len() as int)[b] == more[b]);
    }
    let j = choose|j: int|
        0 <= j < queue.len() && (#[trigger] queue[j]).peer == fewer[k].0 && queue[j].item_id
            == fewer[k].1 && vstd::pervasive::cloned(queue[j].item, fewer[k].2) && if offered_before(
            fewer,
            k,
            fewer[k].0,
            fewer[k].1,
        ) {
            exists|last: int| #[trigger]
                last_offer(fewer, last, k, fewer[k].0, fewer[k].1) && forall|dep: ItemId| #[trigger]
                    named(offer_verdict(state, fewer, last), dep) ==> accepted_before(
                        state,
                        fewer,
                        k,
                        dep,
                    )
        } else {
            forall|dep: ItemId| #[trigger]
                queue[j].depends_on(dep) ==> dep == item_id || accepted_before(
                    state,
                    fewer,
                    k,
                    dep,
                )
        };
    if offered_before(fewer, k, fewer[k].0, fewer[k].1) {
        let b = choose|b: int|
            0 <= b < k && b < fewer.len() && (#[trigger] fewer[b]).0 == fewer[k].0 && fewer[b].1
                == fewer[k].1;
        assert(more[b] == fewer[b]);
        assert(offered_before(more, k, more[k].0, more[k].1));
        let last = choose|last: int| #[trigger]
            last_offer(fewer, last, k, fewer[k].0, fewer[k].1) && forall|dep: ItemId| #[trigger]
                named(offer_verdict(state, fewer, last), dep) ==> accepted_before(
                    state,
                    fewer,
                    k,
                    dep,
                );
        lemma_last_offer_same(fewer, more, last, k, fewer[k].0, fewer[k].1);
        lemma_offer_same(state, fewer, more, last);
        assert forall|dep: ItemId| #[trigger]
            named(offer_verdict(state, more, last), dep) implies accepted_before(
            state,
            more,
            k,
            dep,
        ) by {
            lemma_accepted_grow(state, fewer, more, k, k, dep);
        }
        assert(last_offer(more, last, k, more[k].0, more[k].1));
    } else {
        assert(!offered_before(more, k, more[k].0, more[k].1)) by {
            if offered_before(more, k, more[k].0, more[k].1) {
                let b = choose|b: int|
                    0 <= b < k && b < more.len() && (#[trigger] more[b]).0 == more[k].0
                        && more[b].1 == more[k].1;
                assert(more[b] == fewer[b]);
                assert(fewer[b].0 == fewer[k].0);
            }
        }
        assert forall|dep: ItemId| #[trigger] queue[j].depends_on(dep) implies dep == item_id
            || accepted_before(state, more, k, dep) by {
            if dep != item_id {
                lemma_accepted_grow(state, fewer, more, k, k, dep);
            }
        }
    }
    assert(queue[j].peer == more[k].0);
}

/// What covers an item covers it among more offers, none of which is of the item.
pub proof fn lemma_covered_grows<P: ProtocolState>(
    queued: QueuedView<<P::DepSpec as DependencySpec>::Item>,
    origin: Seq<QueuedView<<P::DepSpec as DependencySpec>::Item>>,
    state: P,
    item_id: ItemId,
    fewer: Seq<(NodeId, ItemId, <P::DepSpec as DependencySpec>::Item)>,
    more: Seq<(NodeId, ItemId, <P::DepSpec as DependencySpec>::Item)>,
)
    requires
        is_prefix(fewer, more),
        covered(queued, origin, state, item_id, fewer),
        forall|b: int|
            fewer.len() <= b < more.len() ==> !((#[trigger] more[b]).0 == queued.peer && more[b].1
                == queued.item_id),
    ensures
        covered(queued, origin, state, item_id, more),
{
    assert forall|b: int| 0 <= b < fewer.len() implies #[trigger] more[b] == fewer[b] by {
        assert(more.take(fewer.len() as int)[b] == more[b]);
    }
    if was_offered(fewer, queued.peer, queued.item_id) {
        lemma_offers_grow(state, fewer, more, queued.peer, queued.item_id);
        let last = choose|last: int| #[trigger]
            last_offer(fewer, last, fewer.len() as int, queued.peer, queued.item_id)
                && (forall|dep: ItemId| #[trigger]
                named(offer_verdict(state, fewer, last), dep) ==> queued.depends_on(dep)
                    || accepted_before(state, fewer, fewer.len() as int, dep))
                && (forall|dep: ItemId| #[trigger]
                queued.depends_on(dep) ==> named(offer_verdict(state, fewer, last), dep));
        lemma_offer_same(state, fewer, more, last);
        assert(last_offer(more, last, more.len() as int, queued.peer, queued.item_id));
        assert forall|dep: ItemId| #[trigger]
            named(offer_verdict(state, more, last), dep) implies queued.depends_on(dep)
            || accepted_before(state, more, more.len() as int, dep) by {
            if !queued.depends_on(dep) {
                lemma_accepted_grow(
                    state,
                    fewer,
                    more,
                    fewer.len() as int,
                    more.len() as int,
                    dep,
                );
            }
        }
    } else {
        assert(!was_offered(more, queued.peer, queued.item_id)) by {
            if was_offered(more, queued.peer, queued.item_id) {
                let b = choose|b: int|
                    0 <= b < more.len() && (#[trigger] more[b]).0 == queued.peer && more[b].1
                        == queued.item_id;
                if b < fewer.len() {
                    assert(fewer[b].0 == queued.peer);
                }
            }
        }
        let j = choose|j: int|
            0 <= j < origin.len() && (#[trigger] origin[j]).peer == queued.peer
                && origin[j].item_id == queued.item_id && origin[j].item == queued.item
                && (forall|dep: ItemId| #[trigger]
                origin[j].depends_on(dep) ==> queued.depends_on(dep) || dep == item_id
                    || accepted_before(state, fewer, fewer.len() as int, dep))
                && (forall|dep: ItemId| #[trigger]
                queued.depends_on(dep) ==> origin[j].depends_on(dep));
        assert forall|dep: ItemId| #[trigger] origin[j].depends_on(dep) implies queued.depends_on(
            dep,
        ) || dep == item_id || accepted_before(state, more, more.len() as int, dep) by {
            if !queued.depends_on(dep) && dep != item_id {
                lemma_accepted_grow(
                    state,
                    fewer,
                    more,
                    fewer.len() as int,
                    more.len() as int,
                    dep,
                );
            }
        }
        assert(origin[j].peer == queued.peer);
    }
}

/// An item stays covered when a dependency that has arrived is struck from it.
pub proof fn lemma_covered_struck<P: ProtocolState>(
    queued: QueuedView<<P::DepSpec as DependencySpec>::Item>,
    after: QueuedView<<P::DepSpec as DependencySpec>::Item>,
    origin: Seq<QueuedView<<P::DepSpec as DependencySpec>::Item>>,
    state: P,
    item_id: ItemId,
    offers: Seq<(NodeId, ItemId, <P::DepSpec as DependencySpec>::Item)>,
    arrived: ItemId,
)
    requires
        covered(queued, origin, state, item_id, offers),
        after.peer == queued.peer,
        after.item_id == queued.item_id,
        after.item == queued.item,
        forall|dep: ItemId| #[trigger]
            queued.depends_on(dep) ==> after.depends_on(dep) || dep == arrived,
        forall|dep: ItemId| #[trigger] after.depends_on(dep) ==> queued.depends_on(dep),
        if was_offered(offers, queued.peer, queued.item_id) {
            accepted_before(state, offers, offers.len() as int, arrived)
        } else {
            arrived == item_id || accepted_before(state, offers, offers.len() as int, arrived)
        },
    ensures
        covered(after, origin, state, item_id, offers),
{
    if was_offered(offers, queued.peer, queued.item_id) {
        let last = choose|last: int| #[trigger]
            last_offer(offers, last, offers.len() as int, queued.peer, queued.item_id)
                && (forall|dep: ItemId| #[trigger]
                named(offer_verdict(state, offers, last), dep) ==> queued.depends_on(dep)
                    || accepted_before(state, offers, offers.len() as int, dep))
                && (forall|dep: ItemId| #[trigger]
                queued.depends_on(dep) ==> named(offer_verdict(state, offers, last), dep));
        assert(last_offer(offers, last, offers.len() as int, after.peer, after.item_id));
        assert forall|dep: ItemId| #[trigger]
            named(offer_verdict(state, offers, last), dep) implies after.depends_on(dep)
            || accepted_before(state, offers, offers.len() as int, dep) by {
            if queued.depends_on(dep) && dep != arrived {
                assert(after.depends_on(dep));
            }
        }
    } else {
        let j = choose|j: int|
            0 <= j < origin.len() && (#[trigger] origin[j]).peer == queued.peer
                && origin[j].item_id == queued.item_id && origin[j].item == queued.item
                && (forall|dep: ItemId| #[trigger]
                origin[j].depends_on(dep) ==> queued.depends_on(dep) || dep == item_id
                    || accepted_before(state, offers, offers.len() as int, dep))
                && (forall|dep: ItemId| #[trigger]
                queued.depends_on(dep) ==> origin[j].depends_on(dep));
        assert forall|dep: ItemId| #[trigger] origin[j].depends_on(dep) implies after.depends_on(
            dep,
        ) || dep == item_id || accepted_before(state, offers, offers.len() as int, dep) by {
            if queued.depends_on(dep) && dep != arrived {
                assert(after.depends_on(dep));
            }
        }
        assert(origin[j].peer == after.peer);
    }
}

/// What covers an item covers the same item with the same dependencies.
pub proof fn lemma_covered_same<P: ProtocolState>(
    queued: QueuedView<<P::DepSpec as DependencySpec>::Item>,
    other: QueuedView<<P::DepSpec as DependencySpec>::Item>,
    origin: Seq<QueuedView<<P::DepSpec as DependencySpec>::Item>>,
    state: P,
    item_id: ItemId,
    offers: Seq<(NodeId, ItemId, <P::DepSpec as DependencySpec>::Item)>,
)
    requires
        covered(queued, origin, state, item_id, offers),
        other.same_item(queued),
    ensures
        covered(other, origin, state, item_id, offers),
{
    assert forall|dep: ItemId| #[trigger] other.depends_on(dep) == queued.depends_on(dep) by {}
    if was_offered(offers, queued.peer, queued.item_id) {
        let last = choose|last: int| #[trigger]
            last_offer(offers, last, offers.len() as int, queued.peer, queued.item_id)
                && (forall|dep: ItemId| #[trigger]
                named(offer_verdict(state, offers, last), dep) ==> queued.depends_on(dep)
                    || accepted_before(state, offers, offers.len() as int, dep))
                && (forall|dep: ItemId| #[trigger]
                queued.depends_on(dep) ==> named(offer_verdict(state, offers, last), dep));
        assert(last_offer(offers, last, offers.len() as int, other.peer, other.item_id));
        assert forall|dep: ItemId| #[trigger]
            named(offer_verdict(state, offers, last), dep) implies other.depends_on(dep)
            || accepted_before(state, offers, offers.len() as int, dep) by {
            assert(other.depends_on(dep) == queued.depends_on(dep));
        }
        assert forall|dep: ItemId| #[trigger] other.depends_on(dep) implies named(
            offer_verdict(state, offers, last),
            dep,
        ) by {
            assert(other.depends_on(dep) == queued.depends_on(dep));
        }
    } else {
        let j = choose|j: int|
            0 <= j < origin.len() && (#[trigger] origin[j]).peer == queued.peer
                && origin[j].item_id == queued.item_id && origin[j].item == queued.item
                && (forall|dep: ItemId| #[trigger]
                origin[j].depends_on(dep) ==> queued.depends_on(dep) || dep == item_id
                    || accepted_before(state, offers, offers.len() as int, dep))
                && (forall|dep: ItemId| #[trigger]
                queued.depends_on(dep) ==> origin[j].depends_on(dep));
        assert forall|dep: ItemId| #[trigger] origin[j].depends_on(dep) implies other.depends_on(
            dep,
        ) || dep == item_id || accepted_before(state, offers, offers.len() as int, dep) by {
            assert(other.depends_on(dep) == queued.depends_on(dep));
        }
        assert forall|dep: ItemId| #[trigger] other.depends_on(dep) implies origin[j].depends_on(
            dep,
        ) by {
            assert(other.depends_on(dep) == queued.depends_on(dep));
        }
        assert(origin[j].peer == other.peer);
    }
}

/// An item that depends on what the verdict on its offer, the last of the
/// offers, named is covered.
pub proof fn lemma_covered_named<P: ProtocolState>(
    queued: QueuedView<<P::DepSpec as DependencySpec>::Item>,
    origin: Seq<QueuedView<<P::DepSpec as DependencySpec>::Item>>,
    state: P,
    item_id: ItemId,
    offers: Seq<(NodeId, ItemId, <P::DepSpec as DependencySpec>::Item)>,
)
    requires
        offers.len() > 0,
        offers.last().0 == queued.peer,
        offers.last().1 == queued.item_id,
        forall|dep: ItemId| #[trigger]
            named(offer_verdict(state, offers, offers.len() - 1), dep) == queued.depends_on(dep),
    ensures
        covered(queued, origin, state, item_id, offers),
{
    let last = offers.len() - 1;
    assert(offers[last].0 == queued.peer);
    assert(last_offer(offers, last, offers.len() as int, queued.peer, queued.item_id));
}

/// No offer is of the item number `n` of a queue without duplicates if
/// all offers are of the items before it.
pub proof fn lemma_not_offered<I>(
    offers: Seq<(NodeId, ItemId, I)>,
    queue: Seq<QueuedView<I>>,
    n: int,
)
    requires
        queue_distinct(queue),
        0 <= n < queue.len(),
        forall|b: int| 0 <= b < offers.len() ==> offer_among(#[trigger] offers[b], queue, n),
    ensures
        !was_offered(offers, queue[n].peer, queue[n].item_id),
{
    if was_offered(offers, queue[n].peer, queue[n].item_id) {
        let b = choose|b: int|
            0 <= b < offers.len() && (#[trigger] offers[b]).0 == queue[n].peer && offers[b].1
                == queue[n].item_id;
        assert(offer_among(offers[b], queue, n));
        let j = choose|j: int|
            0 <= j < n && j < queue.len() && (#[trigger] queue[j]).peer == offers[b].0
                && queue[j].item_id == offers[b].1;
        assert(!(queue[j].peer == queue[n].peer && queue[j].item_id == queue[n].item_id));
    }
}

/// The offer of a covered item with nothing outstanding is due.
pub proof fn lemma_offer_due<P: ProtocolState>(
    queued: QueuedView<<P::DepSpec as DependencySpec>::Item>,
    origin: Seq<QueuedView<<P::DepSpec as DependencySpec>::Item>>,
    state: P,
    item_id: ItemId,
    before: Seq<(NodeId, ItemId, <P::DepSpec as DependencySpec>::Item)>,
    copy: <P::DepSpec as DependencySpec>::Item,
) where <P::DepSpec as DependencySpec>::Item: Clone
    requires
        covered(queued, origin, state, item_id, before),
        came_from(queued, origin),
        queued.to_request == Set::<ItemId>::empty(),
        queued.requested == Set::<ItemId>::empty(),
        vstd::pervasive::cloned(queued.item, copy),
    ensures
        offer_due(
            origin,
            state,
            item_id,
            before.push((queued.peer, queued.item_id, copy)),
            before.len() as int,
        ),
{
    let after = before.push((queued.peer, queued.item_id, copy));
    let k = before.len() as int;
    assert(after.take(k) =~= before);
    assert(is_prefix(before, after));
    assert(after[k] == (queued.peer, queued.item_id, copy));
    assert forall|b: int| 0 <= b < before.len() implies #[trigger] after[b] == before[b] by {}
    let j = choose|j: int|
        0 <= j < origin.len() && (#[trigger] origin[j]).peer == queued.peer && origin[j].item_id
            == queued.item_id && origin[j].item == queued.item;
    if was_offered(before, queued.peer, queued.item_id) {
        let b = choose|b: int|
            0 <= b < before.len() && (#[trigger] before[b]).0 == queued.peer && before[b].1
                == queued.item_id;
        assert(after[b] == before[b]);
        assert(offered_before(after, k, after[k].0, after[k].1));
        let last = choose|last: int| #[trigger]
            last_offer(before, last, before.len() as int, queued.peer, queued.item_id)
                && (forall|dep: ItemId| #[trigger]
                named(offer_verdict(state, before, last), dep) ==> queued.depends_on(dep)
                    || accepted_before(state, before, before.len() as int, dep))
                && (forall|dep: ItemId| #[trigger]
                queued.depends_on(dep) ==> named(offer_verdict(state, before, last), dep));
        lemma_last_offer_same(before, after, last, k, queued.peer, queued.item_id);
        lemma_offer_same(state, before, after, last);
        assert forall|dep: ItemId| #[trigger]
            named(offer_verdict(state, after, last), dep) implies accepted_before(
            state,
            after,
            k,
            dep,
        ) by {
            assert(!queued.depends_on(dep));
            lemma_accepted_grow(state, before, after, k, k, dep);
        }
        assert(last_offer(after, last, k, after[k].0, after[k].1));
        assert(origin[j].peer == after[k].0);
    } else {
        assert(!offered_before(after, k, after[k].0, after[k].1)) by {
            if offered_before(after, k, after[k].0, after[k].1) {
                let b = choose|b: int|
                    0 <= b < k && b < after.len() && (#[trigger] after[b]).0 == after[k].0
                        && after[b].1 == after[k].1;
                assert(before[b].0 == queued.peer);
            }
        }
        let j2 = choose|j2: int|
            0 <= j2 < origin.len() && (#[trigger] origin[j2]).peer == queued.peer
                && origin[j2].item_id == queued.item_id && origin[j2].item == queued.item
                && (forall|dep: ItemId| #[trigger]
                origin[j2].depends_on(dep) ==> queued.depends_on(dep) || dep == item_id
                    || accepted_before(state, before, before.len() as int, dep))
                && (forall|dep: ItemId| #[trigger]
                queued.depends_on(dep) ==> origin[j2].depends_on(dep));
        assert forall|dep: ItemId| #[trigger] origin[j2].depends_on(dep) implies dep == item_id
            || accepted_before(state, after, k, dep) by {
            assert(!queued.depends_on(dep));
            if dep != item_id {
                lemma_accepted_grow(state, before, after, k, k, dep);
            }
        }
        assert(origin[j2].peer == after[k].0);
    }
}

/// What held of the offers and of the items of a round before the item
/// number `index` was treated holds of the offers afterwards, of the
/// items that were treated before and of those that are still to be.
pub proof fn lemma_round_grows<P: ProtocolState>(
    origin: Seq<QueuedView<<P::DepSpec as DependencySpec>::Item>>,
    state: P,
    item_id: ItemId,
    fewer: Seq<(NodeId, ItemId, <P::DepSpec as DependencySpec>::Item)>,
    more: Seq<(NodeId, ItemId, <P::DepSpec as DependencySpec>::Item)>,
    start: Seq<QueuedView<<P::DepSpec as DependencySpec>::Item>>,
    index: int,
    queue: Seq<QueuedView<<P::DepSpec as DependencySpec>::Item>>,
    first: bool,
    current: ItemId,
    accepted: Seq<ItemId>,
    from: int,
) where <P::DepSpec as DependencySpec>::Item: Clone
    requires
        is_prefix(fewer, more),
        more.len() <= fewer.len() + 1,
        queue_distinct(start),
        0 <= index < start.len(),
        more.len() > fewer.len() ==> more.last().0 == start[index].peer && more.last().1
            == start[index].item_id,
        forall|m: int| 0 <= m < queue.len() ==> among(#[trigger] queue[m], start, index),
        forall|k: int| 0 <= k < fewer.len() ==> #[trigger] offer_due(origin, state, item_id, fewer, k),
        more.len() > fewer.len() ==> offer_due(origin, state, item_id, more, fewer.len() as int),
        forall|m: int|
            index < m < start.len() ==> covered(#[trigger] start[m], origin, state, item_id, fewer),
        forall|m: int|
            0 <= m < queue.len() ==> covered(#[trigger] queue[m], origin, state, item_id, fewer),
        first ==> forall|b: int|
            0 <= b < fewer.len() ==> offer_among(#[trigger] fewer[b], start, index),
        !first ==> accepted_before(state, fewer, fewer.len() as int, current),
        forall|x: int|
            from <= x < accepted.len() ==> accepted_before(
                state,
                fewer,
                fewer.len() as int,
                #[trigger] accepted[x],
            ),
    ensures
        forall|k: int| 0 <= k < more.len() ==> #[trigger] offer_due(origin, state, item_id, more, k),
        forall|m: int|
            index < m < start.len() ==> covered(#[trigger] start[m], origin, state, item_id, more),
        forall|m: int|
            0 <= m < queue.len() ==> covered(#[trigger] queue[m], origin, state, item_id, more),
        first ==> forall|b: int|
            0 <= b < more.len() ==> offer_among(#[trigger] more[b], start, index + 1),
        !first ==> accepted_before(state, more, more.len() as int, current),
        forall|x: int|
            from <= x < accepted.len() ==> accepted_before(
                state,
                more,
                more.len() as int,
                #[trigger] accepted[x],
            ),
{
    assert forall|b: int| 0 <= b < fewer.len() implies #[trigger] more[b] == fewer[b] by {
        assert(more.take(fewer.len() as int)[b] == more[b]);
    }
    assert forall|k: int| 0 <= k < more.len() implies #[trigger] offer_due(
        origin,
        state,
        item_id,
        more,
        k,
    ) by {
        if k < fewer.len() {
            lemma_due_grows(origin, state, item_id, fewer, more, k);
        }
    }
    assert forall|m: int| index < m < start.len() implies covered(
        #[trigger] start[m],
        origin,
        state,
        item_id,
        more,
    ) by {
        assert(!(start[index].peer == start[m].peer && start[index].item_id == start[m].item_id));
        lemma_covered_grows(start[m], origin, state, item_id, fewer, more);
    }
    assert forall|m: int| 0 <= m < queue.len() implies covered(
        #[trigger] queue[m],
        origin,
        state,
        item_id,
        more,
    ) by {
        assert(among(queue[m], start, index));
        let j = choose|j: int|
            0 <= j < index && j < start.len() && (#[trigger] start[j]).peer == queue[m].peer
                && start[j].item_id == queue[m].item_id;
        assert(!(start[j].peer == start[index].peer && start[j].item_id == start[index].item_id));
        lemma_covered_grows(queue[m], origin, state, item_id, fewer, more);
    }
    if first {
        assert forall|b: int| 0 <= b < more.len() implies offer_among(
            #[trigger] more[b],
            start,
            index + 1,
        ) by {
            if b < fewer.len() {
                assert(offer_among(fewer[b], start, index));
                let j = choose|j: int|
                    0 <= j < index && j < start.len() && (#[trigger] start[j]).peer == fewer[b].0
                        && start[j].item_id == fewer[b].1;
                assert(start[j].peer == more[b].0);
            } else {
                assert(start[index].peer == more[b].0);
            }
        }
    } else {
        lemma_accepted_grow(state, fewer, more, fewer.len() as int, more.len() as int, current);
    }
    assert forall|x: int| from <= x < accepted.len() implies accepted_before(
        state,
        more,
        more.len() as int,
        #[trigger] accepted[x],
    ) by {
        lemma_accepted_grow(state, fewer, more, fewer.len() as int, more.len() as int, accepted[x]);
    }
}

/// Whether the offers `more` begin with the offers `fewer`.
pub open spec fn is_prefix<I>(fewer: Seq<(NodeId, ItemId, I)>, more: Seq<(NodeId, ItemId, I)>) -> bool {
    fewer.len() <= more.len() && more.take(fewer.len() as int) == fewer
}

/// Whether `queued` has the peer and identifier of one of the first `n` items of `queue`.
pub open spec fn among<I>(queued: QueuedView<I>, queue: Seq<QueuedView<I>>, n: int) -> bool {
    exists|j: int|
        0 <= j < n && j < queue.len() && (#[trigger] queue[j]).peer == queued.peer
            && queue[j].item_id == queued.item_id
}

/// Every item of a queue is an item of that queue, and what it waits for
/// was asked for.
pub proof fn lemma_queue_from_itself<I>(queue: Seq<QueuedView<I>>)
    ensures
        all_from(queue, queue),
        forall|m: int| 0 <= m < queue.len() ==> asked_before(#[trigger] queue[m], queue),
        forall|j: int|
            0 <= j < queue.len() ==> in_flight(queue, (#[trigger] queue[j]).peer, queue[j].item_id),
{
    assert forall|m: int| 0 <= m < queue.len() implies came_from(#[trigger] queue[m], queue)
        && asked_before(queue[m], queue) && in_flight(queue, queue[m].peer, queue[m].item_id) by {
        assert(queue[m].peer == queue[m].peer);
    }
}

/// One of the first `n` items is one of the first `n + 1`.
pub proof fn lemma_among_more<I>(queued: QueuedView<I>, queue: Seq<QueuedView<I>>, n: int)
    requires
        among(queued, queue, n),
    ensures
        among(queued, queue, n + 1),
{
    let j = choose|j: int|
        0 <= j < n && j < queue.len() && (#[trigger] queue[j]).peer == queued.peer
            && queue[j].item_id == queued.item_id;
    assert(queue[j].peer == queued.peer);
}

/// An item that is queued stays queued when another comes behind it.
pub proof fn lemma_push_in_flight<I>(
    queue: Seq<QueuedView<I>>,
    queued: QueuedView<I>,
    peer: NodeId,
    item_id: ItemId,
)
    requires
        in_flight(queue, peer, item_id),
    ensures
        in_flight(queue.push(queued), peer, item_id),
{
    let i = choose|i: int|
        0 <= i < queue.len() && (#[trigger] queue[i]).peer == peer && queue[i].item_id == item_id;
    assert(queue.push(queued)[i] == queue[i]);
}

/// A request that no item but the idle item number `i` backs differs from
/// the requests that the other items back.
pub proof fn lemma_new_request<D: DependencySpec>(
    before: Seq<QueuedView<D::Item>>,
    i: int,
    sent: Seq<(NodeId, SynchronizerMessage<D>)>,
    out: Seq<(NodeId, SynchronizerMessage<D>)>,
    dep: ItemId,
)
    requires
        0 <= i < before.len(),
        before[i].waiting_for is None,
        once_each(sent),
        forall|k: int| 0 <= k < sent.len() ==> request_backed(before, #[trigger] sent[k]),
        !asked(before.remove(i), before[i].peer, dep),
        out == sent.push((before[i].peer, SynchronizerMessage::<D>::RequestDependency(dep))),
    ensures
        once_each(out),
{
    let rest = before.remove(i);
    assert forall|a: int, b: int| 0 <= a < b < out.len() implies #[trigger] out[a]
        != #[trigger] out[b] by {
        assert(out[a] == sent[a]);
        if b < sent.len() {
            assert(out[b] == sent[b]);
        } else if out[a] == out[b] {
            assert(request_backed(before, sent[a]));
            let m = choose|m: int|
                0 <= m < before.len() && (#[trigger] before[m]).peer == sent[a].0
                    && before[m].waiting_for is Some && sent[a].1 == SynchronizerMessage::<
                    D,
                >::RequestDependency(before[m].waiting_for->Some_0);
            assert(m != i);
            if m < i {
                assert(rest[m] == before[m]);
                assert(rest[m].waiting_for == Some(dep));
            } else {
                assert(rest[m - 1] == before[m]);
                assert(rest[m - 1].waiting_for == Some(dep));
            }
            assert(asked(rest, before[i].peer, dep));
        }
    }
}

/// An item that was accepted among more offers, with an item not offered
/// since, was so among fewer, or is the item of the one offer more.
pub proof fn lemma_since_fewer<P: ProtocolState>(
    state: P,
    fewer: Seq<(NodeId, ItemId, <P::DepSpec as DependencySpec>::Item)>,
    more: Seq<(NodeId, ItemId, <P::DepSpec as DependencySpec>::Item)>,
    peer: NodeId,
    item_id: ItemId,
    dep: ItemId,
)
    requires
        is_prefix(fewer, more),
        more.len() <= fewer.len() + 1,
        accepted_since(state, more, peer, item_id, dep),
    ensures
        accepted_since(state, fewer, peer, item_id, dep) || (more.len() == fewer.len() + 1
            && more[more.len() - 1].1 == dep && offer_accepted(state, more, more.len() - 1)),
{
    let a = choose|a: int|
        0 <= a < more.len() && (#[trigger] more[a]).1 == dep && offer_accepted(state, more, a)
            && !offered_from(more, a, peer, item_id);
    if a < fewer.len() {
        lemma_offer_same(state, fewer, more, a);
        assert(offer_accepted(state, fewer, a));
        if offered_from(fewer, a, peer, item_id) {
            let b = choose|b: int|
                a <= b < fewer.len() && (#[trigger] fewer[b]).0 == peer && fewer[b].1 == item_id;
            lemma_offer_same(state, fewer, more, b);
            assert(more[b].0 == peer);
        }
        assert(fewer[a].1 == dep);
    }
}

/// An item that has been told, but for the items that wait, has been
/// told among more offers, where the item of an accepted offer waits.
pub proof fn lemma_told_more<P: ProtocolState>(
    queued: QueuedView<<P::DepSpec as DependencySpec>::Item>,
    state: P,
    fewer: Seq<(NodeId, ItemId, <P::DepSpec as DependencySpec>::Item)>,
    more: Seq<(NodeId, ItemId, <P::DepSpec as DependencySpec>::Item)>,
    waiting_before: Seq<ItemId>,
    waiting: Seq<ItemId>,
    current: Option<ItemId>,
)
    requires
        told_but(queued, state, fewer, waiting_before, current),
        is_prefix(fewer, more),
        more.len() <= fewer.len() + 1,
        waiting_before.len() <= waiting.len(),
        forall|x: int| 0 <= x < waiting_before.len() ==> #[trigger] waiting[x] == waiting_before[x],
        more.len() > fewer.len() && offer_accepted(state, more, more.len() - 1)
            ==> waiting.contains(more[more.len() - 1].1),
    ensures
        told_but(queued, state, more, waiting, current),
{
    assert forall|dep: ItemId|
        (#[trigger] queued.depends_on(dep)) && accepted_since(
            state,
            more,
            queued.peer,
            queued.item_id,
            dep,
        ) implies waiting.contains(dep) || current == Some(dep) by {
        lemma_since_fewer(state, fewer, more, queued.peer, queued.item_id, dep);
        if accepted_since(state, fewer, queued.peer, queued.item_id, dep) {
            if waiting_before.contains(dep) {
                let x = choose|x: int| 0 <= x < waiting_before.len() && waiting_before[x] == dep;
                assert(waiting[x] == dep);
            }
        }
    }
}

/// What one step of a round keeps of what the items have been told.
pub proof fn lemma_told_round<P: ProtocolState>(
    state: P,
    fewer: Seq<(NodeId, ItemId, <P::DepSpec as DependencySpec>::Item)>,
    more: Seq<(NodeId, ItemId, <P::DepSpec as DependencySpec>::Item)>,
    start: Seq<QueuedView<<P::DepSpec as DependencySpec>::Item>>,
    index: int,
    queue: Seq<QueuedView<<P::DepSpec as DependencySpec>::Item>>,
    waiting_before: Seq<ItemId>,
    waiting: Seq<ItemId>,
    current: ItemId,
)
    requires
        is_prefix(fewer, more),
        more.len() <= fewer.len() + 1,
        0 <= index < start.len(),
        waiting_before.len() <= waiting.len(),
        forall|x: int| 0 <= x < waiting_before.len() ==> #[trigger] waiting[x] == waiting_before[x],
        more.len() > fewer.len() && offer_accepted(state, more, more.len() - 1)
            ==> waiting.len() > 0 && waiting[waiting.len() - 1] == more[more.len() - 1].1,
        forall|m: int|
            index <= m < start.len() ==> told_but(
                #[trigger] start[m],
                state,
                fewer,
                waiting_before,
                Some(current),
            ),
        forall|m: int|
            0 <= m < queue.len() ==> told_but(
                #[trigger] queue[m],
                state,
                fewer,
                waiting_before,
                None,
            ),
    ensures
        forall|m: int|
            index <= m < start.len() ==> told_but(
                #[trigger] start[m],
                state,
                more,
                waiting,
                Some(current),
            ),
        forall|m: int|
            0 <= m < queue.len() ==> told_but(#[trigger] queue[m], state, more, waiting, None),
{
    if more.len() > fewer.len() && offer_accepted(state, more, more.len() - 1) {
        assert(waiting[waiting.len() - 1] == more[more.len() - 1].1);
        assert(waiting.contains(more[more.len() - 1].1));
    }
    assert forall|m: int| index <= m < start.len() implies told_but(
        #[trigger] start[m],
        state,
        more,
        waiting,
        Some(current),
    ) by {
        lemma_told_more(start[m], state, fewer, more, waiting_before, waiting, Some(current));
    }
    assert forall|m: int| 0 <= m < queue.len() implies told_but(
        #[trigger] queue[m],
        state,
        more,
        waiting,
        None,
    ) by {
        lemma_told_more(queue[m], state, fewer, more, waiting_before, waiting, None);
    }
}

/// An item that has been told but for `current`, and no longer depends
/// on `current`, has been told.
pub proof fn lemma_told_kept<P: ProtocolState>(
    entry: QueuedView<<P::DepSpec as DependencySpec>::Item>,
    kept: QueuedView<<P::DepSpec as DependencySpec>::Item>,
    state: P,
    offers: Seq<(NodeId, ItemId, <P::DepSpec as DependencySpec>::Item)>,
    waiting: Seq<ItemId>,
    current: ItemId,
)
    requires
        told_but(entry, state, offers, waiting, Some(current)),
        kept.peer == entry.peer,
        kept.item_id == entry.item_id,
        forall|dep: ItemId| #[trigger] kept.depends_on(dep) ==> entry.depends_on(dep),
        !kept.depends_on(current),
    ensures
        told_but(kept, state, offers, waiting, None),
{
    assert forall|dep: ItemId|
        (#[trigger] kept.depends_on(dep)) && accepted_since(
            state,
            offers,
            kept.peer,
            kept.item_id,
            dep,
        ) implies waiting.contains(dep) by {
        assert(entry.depends_on(dep));
        assert(dep != current);
    }
}

/// An item whose offer is the last of the offers has been told.
pub proof fn lemma_told_offered<P: ProtocolState>(
    kept: QueuedView<<P::DepSpec as DependencySpec>::Item>,
    state: P,
    offers: Seq<(NodeId, ItemId, <P::DepSpec as DependencySpec>::Item)>,
    waiting: Seq<ItemId>,
)
    requires
        offers.len() > 0,
        offers[offers.len() - 1].0 == kept.peer,
        offers[offers.len() - 1].1 == kept.item_id,
    ensures
        told_but(kept, state, offers, waiting, None),
{
    assert forall|dep: ItemId|
        (#[trigger] kept.depends_on(dep)) && accepted_since(
            state,
            offers,
            kept.peer,
            kept.item_id,
            dep,
        ) implies waiting.contains(dep) by {
        let a = choose|a: int|
            0 <= a < offers.len() && (#[trigger] offers[a]).1 == dep && offer_accepted(
                state,
                offers,
                a,
            ) && !offered_from(offers, a, kept.peer, kept.item_id);
        assert(offers[offers.len() - 1].0 == kept.peer);
        assert(offered_from(offers, a, kept.peer, kept.item_id));
    }
}

/// An item that has been told, but for the items that wait, has been told
/// but for the last of them and for the others.
pub proof fn lemma_told_popped<P: ProtocolState>(
    queued: QueuedView<<P::DepSpec as DependencySpec>::Item>,
    state: P,
    offers: Seq<(NodeId, ItemId, <P::DepSpec as DependencySpec>::Item)>,
    listed: Seq<ItemId>,
)
    requires
        listed.len() > 0,
        told_but(queued, state, offers, listed, None),
    ensures
        told_but(queued, state, offers, listed.drop_last(), Some(listed.last())),
{
    assert forall|dep: ItemId|
        (#[trigger] queued.depends_on(dep)) && accepted_since(
            state,
            offers,
            queued.peer,
            queued.item_id,
            dep,
        ) implies listed.drop_last().contains(dep) || Some(listed.last()) == Some(dep) by {
        assert(listed.contains(dep));
        let x = choose|x: int| 0 <= x < listed.len() && listed[x] == dep;
        if x < listed.len() - 1 {
            assert(listed.drop_last()[x] == dep);
        }
    }
}

/// In a queue without duplicates an item stands at its place.
pub proof fn lemma_place<I>(queue: Seq<QueuedView<I>>, j: int)
    requires
        queue_distinct(queue),
        0 <= j < queue.len(),
    ensures
        place(queue, queue[j].peer, queue[j].item_id) == j,
{
    let p = place(queue, queue[j].peer, queue[j].item_id);
    assert(0 <= p < queue.len() && queue[p].peer == queue[j].peer && queue[p].item_id
        == queue[j].item_id);
    if p < j {
        assert(!(queue[p].peer == queue[j].peer && queue[p].item_id == queue[j].item_id));
    } else if j < p {
        assert(!(queue[j].peer == queue[p].peer && queue[j].item_id == queue[p].item_id));
    }
}

/// The items of a queue without duplicates stand in their own order.
pub proof fn lemma_order_itself<I>(queue: Seq<QueuedView<I>>)
    requires
        queue_distinct(queue),
    ensures
        in_order(queue, queue),
{
    assert forall|a: int, b: int| 0 <= a < b < queue.len() implies place(
        queue,
        (#[trigger] queue[a]).peer,
        queue[a].item_id,
    ) < place(queue, (#[trigger] queue[b]).peer, queue[b].item_id) by {
        lemma_place(queue, a);
        lemma_place(queue, b);
    }
}

/// A queue with the items of an ordered queue, one for one, is ordered as
/// that queue is.
pub proof fn lemma_order_same<I>(
    after: Seq<QueuedView<I>>,
    mid: Seq<QueuedView<I>>,
    origin: Seq<QueuedView<I>>,
)
    requires
        in_order(mid, origin),
        after.len() == mid.len(),
        forall|m: int| 0 <= m < after.len() ==> (#[trigger] after[m]).same_item(mid[m]),
    ensures
        in_order(after, origin),
{
    assert forall|a: int, b: int| 0 <= a < b < after.len() implies place(
        origin,
        (#[trigger] after[a]).peer,
        after[a].item_id,
    ) < place(origin, (#[trigger] after[b]).peer, after[b].item_id) by {
        assert(after[a].same_item(mid[a]));
        assert(after[b].same_item(mid[b]));
        assert(place(origin, mid[a].peer, mid[a].item_id) < place(
            origin,
            mid[b].peer,
            mid[b].item_id,
        ));
    }
}

/// Items in the order of a queue that is in the order of another are in
/// the order of that other queue.
pub proof fn lemma_order_trans<I>(
    after: Seq<QueuedView<I>>,
    mid: Seq<QueuedView<I>>,
    origin: Seq<QueuedView<I>>,
)
    requires
        in_order(after, mid),
        in_order(mid, origin),
        forall|m: int| 0 <= m < after.len() ==> among(#[trigger] after[m], mid, mid.len() as int),
    ensures
        in_order(after, origin),
{
    assert forall|a: int, b: int| 0 <= a < b < after.len() implies place(
        origin,
        (#[trigger] after[a]).peer,
        after[a].item_id,
    ) < place(origin, (#[trigger] after[b]).peer, after[b].item_id) by {
        assert(among(after[a], mid, mid.len() as int));
        assert(among(after[b], mid, mid.len() as int));
        let pa = place(mid, after[a].peer, after[a].item_id);
        let pb = place(mid, after[b].peer, after[b].item_id);
        assert(0 <= pa < mid.len() && mid[pa].peer == after[a].peer && mid[pa].item_id
            == after[a].item_id);
        assert(0 <= pb < mid.len() && mid[pb].peer == after[b].peer && mid[pb].item_id
            == after[b].item_id);
        assert(pa < pb);
        assert(place(origin, mid[pa].peer, mid[pa].item_id) < place(
            origin,
            mid[pb].peer,
            mid[pb].item_id,
        ));
    }
}

/// An ordered queue whose items are among the first `n` of a queue
/// without duplicates stays ordered when the item number `n` comes behind
/// them.
pub proof fn lemma_push_order<I>(
    queue: Seq<QueuedView<I>>,
    queued: QueuedView<I>,
    start: Seq<QueuedView<I>>,
    n: int,
)
    requires
        in_order(queue, start),
        queue_distinct(start),
        0 <= n < start.len(),
        forall|m: int| 0 <= m < queue.len() ==> among(#[trigger] queue[m], start, n),
        queued.peer == start[n].peer,
        queued.item_id == start[n].item_id,
    ensures
        in_order(queue.push(queued), start),
{
    let more = queue.push(queued);
    assert forall|a: int, b: int| 0 <= a < b < more.len() implies place(
        start,
        (#[trigger] more[a]).peer,
        more[a].item_id,
    ) < place(start, (#[trigger] more[b]).peer, more[b].item_id) by {
        assert(more[a] == queue[a]);
        if b < queue.len() {
            assert(more[b] == queue[b]);
        } else {
            assert(among(queue[a], start, n));
            let j = choose|j: int|
                0 <= j < n && j < start.len() && (#[trigger] start[j]).peer == queue[a].peer
                    && start[j].item_id == queue[a].item_id;
            lemma_place(start, j);
            lemma_place(start, n);
        }
    }
}

/// A queue whose items are among the first `n` of a queue without
/// duplicates has no duplicate when the item number `n` comes behind them.
pub proof fn lemma_push_item<I>(
    queue: Seq<QueuedView<I>>,
    queued: QueuedView<I>,
    start: Seq<QueuedView<I>>,
    n: int,
)
    requires
        queue_distinct(queue),
        queue_distinct(start),
        0 <= n < start.len(),
        forall|m: int| 0 <= m < queue.len() ==> among(#[trigger] queue[m], start, n),
        queued.peer == start[n].peer,
        queued.item_id == start[n].item_id,
    ensures
        queue_distinct(queue.push(queued)),
{
    let more = queue.push(queued);
    assert forall|a: int, b: int| 0 <= a < b < more.len() implies !((#[trigger] more[a]).peer == (
    #[trigger] more[b]).peer && more[a].item_id == more[b].item_id) by {
        if b < queue.len() {
            assert(more[a] == queue[a] && more[b] == queue[b]);
        } else {
            assert(more[a] == queue[a]);
            assert(among(queue[a], start, n));
            let j = choose|j: int|
                0 <= j < n && j < start.len() && (#[trigger] start[j]).peer == queue[a].peer
                    && start[j].item_id == queue[a].item_id;
            assert(!(start[j].peer == start[n].peer && start[j].item_id == start[n].item_id));
        }
    }
}

/// Offers that begin with offers that begin with others begin with those.
pub proof fn lemma_prefix_trans<I>(
    a: Seq<(NodeId, ItemId, I)>,
    b: Seq<(NodeId, ItemId, I)>,
    c: Seq<(NodeId, ItemId, I)>,
)
    requires
        is_prefix(a, b),
        is_prefix(b, c),
    ensures
        is_prefix(a, c),
{
    assert(c.take(a.len() as int) =~= b.take(a.len() as int));
}

/// After one more offer the protocol state is the one that the offer led
/// to, the verdict on the offer is the one of the state before, and the
/// offers begin with those before.
pub proof fn lemma_offer_made<P: ProtocolState>(
    state: P,
    before: Seq<(NodeId, ItemId, <P::DepSpec as DependencySpec>::Item)>,
    after: Seq<(NodeId, ItemId, <P::DepSpec as DependencySpec>::Item)>,
)
    requires
        after.len() == before.len() + 1,
        after.drop_last() == before,
    ensures
        offered_all(state, after) == offered_all(state, before).offered(
            after.last().1,
            after.last().2,
        ),
        after.take(after.len() - 1) == before,
        is_prefix(before, after),
        is_prefix(before, before),
{
    assert(after.take(after.len() - 1) =~= after.drop_last());
    assert(before.take(before.len() as int) =~= before);
}

/// What was offered and settled is so among more offers.
pub proof fn lemma_offers_grow<P: ProtocolState>(
    state: P,
    fewer: Seq<(NodeId, ItemId, <P::DepSpec as DependencySpec>::Item)>,
    more: Seq<(NodeId, ItemId, <P::DepSpec as DependencySpec>::Item)>,
    peer: NodeId,
    item_id: ItemId,
)
    requires
        is_prefix(fewer, more),
    ensures
        was_offered(fewer, peer, item_id) ==> was_offered(more, peer, item_id),
        left_by_offer(state, fewer, peer, item_id) ==> left_by_offer(state, more, peer, item_id),
{
    if was_offered(fewer, peer, item_id) {
        let k = choose|k: int|
            0 <= k < fewer.len() && (#[trigger] fewer[k]).0 == peer && fewer[k].1 == item_id;
        assert(more.take(fewer.len() as int)[k] == more[k]);
        assert(more[k].0 == peer);
    }
    if left_by_offer(state, fewer, peer, item_id) {
        let k = choose|k: int|
            0 <= k < fewer.len() && (#[trigger] fewer[k]).0 == peer && fewer[k].1 == item_id
                && offer_settled(state, fewer, k);
        assert(more.take(fewer.len() as int)[k] == more[k]);
        assert(more.take(k) =~= fewer.take(k)) by {
            assert(more.take(fewer.len() as int).take(k) =~= more.take(k));
        }
        assert(more[k].0 == peer && offer_settled(state, more, k));
    }
}

/// A request that was sent is among more messages.
pub proof fn lemma_sent_more<D: DependencySpec>(
    fewer: Seq<(NodeId, SynchronizerMessage<D>)>,
    more: Seq<(NodeId, SynchronizerMessage<D>)>,
    peer: NodeId,
    dep: ItemId,
)
    requires
        request_sent(fewer, peer, dep),
        fewer.len() <= more.len(),
        forall|k: int| 0 <= k < fewer.len() ==> #[trigger] more[k] == fewer[k],
    ensures
        request_sent(more, peer, dep),
{
    let k = choose|k: int|
        0 <= k < fewer.len() && #[trigger] fewer[k] == (
            peer,
            SynchronizerMessage::<D>::RequestDependency(dep),
        );
    assert(more[k] == fewer[k]);
}

/// What a peer is asked for on behalf of the other items of a queue, it is
/// asked for on behalf of an item of the queue.
pub proof fn lemma_rest_asked<I>(queue: Seq<QueuedView<I>>, i: int)
    requires
        0 <= i < queue.len(),
    ensures
        forall|peer: NodeId, dep: ItemId|
            asked(queue.remove(i), peer, dep) ==> #[trigger] asked(queue, peer, dep),
{
    let rest = queue.remove(i);
    assert forall|peer: NodeId, dep: ItemId| asked(rest, peer, dep) implies #[trigger] asked(
        queue,
        peer,
        dep,
    ) by {
        let m = choose|m: int|
            0 <= m < rest.len() && (#[trigger] rest[m]).peer == peer && rest[m].waiting_for == Some(
                dep,
            );
        let m0 = if m < i {
            m
        } else {
            m + 1
        };
        assert(rest[m] == queue[m0]);
        assert(queue[m0].peer == peer);
    }
}

/// Queues with the same items in the same places hold the same items, and
/// one has no duplicates if the other has none.
pub proof fn lemma_same_items<I>(queue: Seq<QueuedView<I>>, other: Seq<QueuedView<I>>)
    requires
        queue.len() == other.len(),
        forall|m: int| 0 <= m < queue.len() ==> (#[trigger] queue[m]).same_item(other[m]),
        queue_distinct(other),
    ensures
        queue_distinct(queue),
        forall|peer: NodeId, item_id: ItemId|
            in_flight(other, peer, item_id) ==> #[trigger] in_flight(queue, peer, item_id),
{
    assert forall|a: int, b: int| 0 <= a < b < queue.len() implies !((#[trigger] queue[a]).peer == (
    #[trigger] queue[b]).peer && queue[a].item_id == queue[b].item_id) by {
        assert(queue[a].same_item(other[a]) && queue[b].same_item(other[b]));
        assert(!(other[a].peer == other[b].peer && other[a].item_id == other[b].item_id));
    }
    assert forall|peer: NodeId, item_id: ItemId| in_flight(other, peer, item_id) implies #[trigger] in_flight(
        queue,
        peer,
        item_id,
    ) by {
        let m = choose|m: int|
            0 <= m < other.len() && (#[trigger] other[m]).peer == peer && other[m].item_id
                == item_id;
        assert(queue[m].same_item(other[m]));
        assert(queue[m].peer == peer);
    }
}

} // verus!
