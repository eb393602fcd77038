use highway_core::dep_spec::{BlockIndex, PotholeDepSpec};
use highway_core::synchronizer::{
    DependencySpec, HandleNewItemResult, ItemWithId, NodeId, ProtocolState, Synchronizer,
    SynchronizerMessage,
};
use std::collections::{BTreeMap, BTreeSet};

/// A chain that takes the block with index `i` once it holds all blocks below `i`.
struct Chain {
    blocks: BTreeMap<BlockIndex, u32>,
    offers: usize,
}

impl Chain {
    fn new() -> Chain {
        Chain {
            blocks: BTreeMap::new(),
            offers: 0,
        }
    }
}

impl ProtocolState for Chain {
    type DepSpec = PotholeDepSpec<u32>;

    fn get_dependency(&self, dep: &BlockIndex) -> Option<ItemWithId<PotholeDepSpec<u32>>> {
        self.blocks.get(dep).map(|block| ItemWithId {
            item_id: *dep,
            item: *block,
        })
    }

    fn handle_new_item(
        &mut self,
        item_id: BlockIndex,
        item: u32,
    ) -> HandleNewItemResult<PotholeDepSpec<u32>> {
        self.offers += 1;
        let missing: BTreeSet<BlockIndex> = (0..item_id)
            .filter(|index| !self.blocks.contains_key(index))
            .collect();
        if missing.is_empty() {
            self.blocks.insert(item_id, item);
            HandleNewItemResult::Accepted
        } else {
            HandleNewItemResult::DependenciesMissing(PotholeDepSpec::new(missing))
        }
    }
}

type Message = SynchronizerMessage<PotholeDepSpec<u32>>;

const PEER: NodeId = 7;
const OTHER: NodeId = 8;

fn requests(messages: &[(NodeId, Message)]) -> Vec<(NodeId, BlockIndex)> {
    messages
        .iter()
        .map(|(peer, message)| match message {
            SynchronizerMessage::RequestDependency(dep) => (*peer, *dep),
            _ => panic!("not a request"),
        })
        .collect()
}

#[test]
fn new_item_without_dependencies_is_accepted() {
    let mut chain = Chain::new();
    let mut sync: Synchronizer<Chain> = Synchronizer::new();
    let out = sync.handle_message(&mut chain, PEER, SynchronizerMessage::NewItem(0, 100));
    assert!(out.is_empty());
    assert_eq!(sync.len(), 0);
    assert_eq!(chain.blocks.get(&0), Some(&100));
}

#[test]
fn dependencies_are_fetched_one_at_a_time() {
    let mut chain = Chain::new();
    let mut sync: Synchronizer<Chain> = Synchronizer::new();

    // Block 2 needs blocks 0 and 1: it is queued, and the sender is asked for block 0.
    let out = sync.handle_message(&mut chain, PEER, SynchronizerMessage::NewItem(2, 102));
    assert_eq!(requests(&out), vec![(PEER, 0)]);
    assert_eq!(sync.len(), 1);
    assert!(sync.is_in_flight(PEER, 2));
    assert!(!sync.is_in_flight(OTHER, 2));
    assert!(sync.is_requested(PEER, 0));
    assert!(!sync.is_requested(PEER, 1));
    assert!(chain.blocks.is_empty());

    // Block 0 arrives: the sender is asked for block 1.
    let resolved = SynchronizerMessage::DependencyResolved(ItemWithId {
        item_id: 0,
        item: 100,
    });
    let out = sync.handle_message(&mut chain, PEER, resolved);
    assert_eq!(requests(&out), vec![(PEER, 1)]);
    assert!(sync.is_in_flight(PEER, 2));
    assert!(sync.is_requested(PEER, 1));
    assert!(!sync.is_requested(PEER, 0));

    // Block 1 arrives: block 2 is offered again and accepted.
    let resolved = SynchronizerMessage::DependencyResolved(ItemWithId {
        item_id: 1,
        item: 101,
    });
    let out = sync.handle_message(&mut chain, PEER, resolved);
    assert!(out.is_empty());
    assert_eq!(sync.len(), 0);
    assert_eq!(chain.blocks.get(&2), Some(&102));
}

#[test]
fn accepted_item_delivered_again_changes_nothing() {
    let mut chain = Chain::new();
    let mut sync: Synchronizer<Chain> = Synchronizer::new();
    sync.handle_message(&mut chain, PEER, SynchronizerMessage::NewItem(0, 100));
    sync.handle_message(&mut chain, PEER, SynchronizerMessage::NewItem(3, 103));
    assert_eq!(sync.len(), 1);
    assert!(sync.is_requested(PEER, 1));

    let out = sync.handle_message(&mut chain, OTHER, SynchronizerMessage::NewItem(0, 100));
    assert!(out.is_empty());
    assert_eq!(sync.len(), 1);
    assert!(sync.is_in_flight(PEER, 3));
    assert!(sync.is_requested(PEER, 1));
}

#[test]
fn a_peer_is_asked_once_for_a_dependency() {
    let mut chain = Chain::new();
    let mut sync: Synchronizer<Chain> = Synchronizer::new();
    let out = sync.handle_message(&mut chain, PEER, SynchronizerMessage::NewItem(1, 101));
    assert_eq!(requests(&out), vec![(PEER, 0)]);
    // A second item of the same peer that needs block 0 causes no second request.
    let out = sync.handle_message(&mut chain, PEER, SynchronizerMessage::NewItem(2, 102));
    assert!(out.is_empty());
    assert_eq!(sync.len(), 2);
    // Another peer is asked itself.
    let out = sync.handle_message(&mut chain, OTHER, SynchronizerMessage::NewItem(2, 102));
    assert_eq!(requests(&out), vec![(OTHER, 0)]);
    assert_eq!(sync.len(), 3);
    // The same item of the same peer is not queued twice.
    let out = sync.handle_message(&mut chain, OTHER, SynchronizerMessage::NewItem(2, 102));
    assert!(out.is_empty());
    assert_eq!(sync.len(), 3);
}

#[test]
fn accepting_an_item_releases_those_that_wait_for_it() {
    let mut chain = Chain::new();
    let mut sync: Synchronizer<Chain> = Synchronizer::new();
    sync.handle_message(&mut chain, PEER, SynchronizerMessage::NewItem(1, 101));
    sync.handle_message(&mut chain, PEER, SynchronizerMessage::NewItem(2, 102));
    sync.handle_message(&mut chain, OTHER, SynchronizerMessage::NewItem(2, 202));
    assert_eq!(sync.len(), 3);

    // Block 0 arrives.  Block 1 is accepted at once; block 2 of PEER follows, as block 1
    // is there by the time its turn comes or it is told so; the copy of OTHER is
    // offered as well.
    let out = sync.handle_message(&mut chain, PEER, SynchronizerMessage::NewItem(0, 100));
    assert_eq!(chain.blocks.get(&0), Some(&100));
    assert_eq!(chain.blocks.get(&1), Some(&101));
    assert!(chain.blocks.contains_key(&2));
    for (_, dep) in requests(&out) {
        assert_eq!(dep, 1);
    }
    assert_eq!(sync.len(), 0);
}

#[test]
fn requests_are_answered_from_the_protocol_state() {
    let mut chain = Chain::new();
    let mut sync: Synchronizer<Chain> = Synchronizer::new();
    sync.handle_message(&mut chain, PEER, SynchronizerMessage::NewItem(0, 100));
    let offers = chain.offers;

    let out = sync.handle_message(&mut chain, OTHER, SynchronizerMessage::RequestDependency(0));
    assert_eq!(out.len(), 1);
    assert_eq!(out[0].0, OTHER);
    match &out[0].1 {
        SynchronizerMessage::DependencyResolved(found) => {
            assert_eq!(found.item_id, 0);
            assert_eq!(found.item, 100);
        }
        _ => panic!("not an answer"),
    }

    // What the state does not hold is not answered.
    let out = sync.handle_message(&mut chain, OTHER, SynchronizerMessage::RequestDependency(5));
    assert!(out.is_empty());
    assert_eq!(chain.offers, offers);
    assert_eq!(sync.len(), 0);
}

#[test]
fn enqueue_does_not_queue_an_item_with_nothing_outstanding() {
    let mut sync: Synchronizer<Chain> = Synchronizer::new();
    let spec = PotholeDepSpec::new(BTreeSet::new());
    assert!(sync.enqueue(PEER, 4, 104, spec).is_empty());
    assert_eq!(sync.len(), 0);
}

#[test]
fn enqueue_asks_for_the_first_dependency() {
    let mut sync: Synchronizer<Chain> = Synchronizer::new();
    let spec = PotholeDepSpec::new([6, 2].into_iter().collect());
    let out = sync.enqueue(PEER, 9, 109, spec);
    assert_eq!(requests(&out), vec![(PEER, 2)]);
    assert_eq!(sync.len(), 1);
    assert!(sync.is_in_flight(PEER, 9));
    assert!(sync.is_requested(PEER, 2));
    assert!(!sync.is_requested(PEER, 6));
    // The same item of the same peer is not queued twice.
    let spec = PotholeDepSpec::new([6, 2].into_iter().collect());
    assert!(sync.enqueue(PEER, 9, 109, spec).is_empty());
    assert_eq!(sync.len(), 1);
}

#[test]
fn an_item_whose_dependencies_were_all_handed_out_stays_queued() {
    let mut chain = Chain::new();
    let mut sync: Synchronizer<Chain> = Synchronizer::new();
    // A specification of which the only dependency was handed out before.
    let mut spec = PotholeDepSpec::new([0].into_iter().collect());
    assert_eq!(spec.next_dependency(), Some(0));
    let out = sync.enqueue(PEER, 1, 101, spec);
    assert!(out.is_empty());
    assert_eq!(sync.len(), 1);
    assert!(sync.is_in_flight(PEER, 1));
    assert!(!sync.is_requested(PEER, 0));
    // When the dependency arrives, the item is offered and accepted.
    let out = sync.handle_message(&mut chain, OTHER, SynchronizerMessage::NewItem(0, 100));
    assert!(out.is_empty());
    assert_eq!(sync.len(), 0);
    assert_eq!(chain.blocks.get(&1), Some(&101));
}

/// A protocol state that never accepts the item 10, and names the item 3 as missing for it.
struct Stubborn {
    held: BTreeSet<u64>,
    offers: Vec<u64>,
}

impl ProtocolState for Stubborn {
    type DepSpec = PotholeDepSpec<u32>;

    fn get_dependency(&self, _dep: &u64) -> Option<ItemWithId<PotholeDepSpec<u32>>> {
        None
    }

    fn handle_new_item(&mut self, item_id: u64, _item: u32) -> HandleNewItemResult<PotholeDepSpec<u32>> {
        self.offers.push(item_id);
        if item_id == 10 {
            HandleNewItemResult::DependenciesMissing(PotholeDepSpec::new([3].into_iter().collect()))
        } else {
            self.held.insert(item_id);
            HandleNewItemResult::Accepted
        }
    }
}

#[test]
fn an_item_that_is_offered_again_and_not_accepted_stays_queued() {
    let mut state = Stubborn {
        held: BTreeSet::new(),
        offers: Vec::new(),
    };
    let mut sync: Synchronizer<Stubborn> = Synchronizer::new();
    let out = sync.handle_message(&mut state, PEER, SynchronizerMessage::NewItem(10, 1000));
    assert_eq!(requests(&out), vec![(PEER, 3)]);
    // Item 3 arrives and is accepted; item 10 is offered again, and the state still names
    // item 3: item 10 stays queued, and its peer is asked for item 3 again.
    let out = sync.handle_message(&mut state, OTHER, SynchronizerMessage::NewItem(3, 300));
    assert_eq!(state.offers, vec![10, 3, 10]);
    assert_eq!(requests(&out), vec![(PEER, 3)]);
    assert_eq!(sync.len(), 1);
    assert!(sync.is_in_flight(PEER, 10));
    assert!(sync.is_requested(PEER, 3));
}

#[test]
fn requests_are_made_for_what_the_queue_waits_for_in_the_end() {
    // 30 needs 10 and 20; 20 needs 10.
    let mut graph = Graph {
        needs: [(30, vec![10, 20]), (20, vec![10])].into_iter().collect(),
        held: BTreeMap::new(),
    };
    let mut sync: Synchronizer<Graph> = Synchronizer::new();
    let out = sync.handle_message(&mut graph, PEER, SynchronizerMessage::NewItem(30, 3));
    assert_eq!(requests(&out), vec![(PEER, 10)]);
    let out = sync.handle_message(&mut graph, OTHER, SynchronizerMessage::NewItem(20, 2));
    assert_eq!(requests(&out), vec![(OTHER, 10)]);
    // Item 10 releases item 20, and item 20 releases item 30: nothing is left to ask for.
    let out = sync.handle_message(&mut graph, PEER, SynchronizerMessage::NewItem(10, 1));
    assert!(out.is_empty());
    assert_eq!(sync.len(), 0);
    assert_eq!(graph.held.len(), 3);
}

/// A protocol state that takes an item once it holds the items that a table lists for it.
struct Graph {
    needs: BTreeMap<u64, Vec<u64>>,
    held: BTreeMap<u64, u32>,
}

impl ProtocolState for Graph {
    type DepSpec = PotholeDepSpec<u32>;

    fn get_dependency(&self, dep: &u64) -> Option<ItemWithId<PotholeDepSpec<u32>>> {
        self.held.get(dep).map(|item| ItemWithId {
            item_id: *dep,
            item: *item,
        })
    }

    fn handle_new_item(&mut self, item_id: u64, item: u32) -> HandleNewItemResult<PotholeDepSpec<u32>> {
        let missing: BTreeSet<u64> = self
            .needs
            .get(&item_id)
            .map(|needs| needs.iter().copied().filter(|dep| !self.held.contains_key(dep)).collect())
            .unwrap_or_default();
        if missing.is_empty() {
            self.held.insert(item_id, item);
            HandleNewItemResult::Accepted
        } else {
            HandleNewItemResult::DependenciesMissing(PotholeDepSpec::new(missing))
        }
    }
}

#[test]
fn a_dependency_that_arrived_meanwhile_is_not_asked_for() {
    let mut graph = Graph {
        needs: [(10, vec![3, 5])].into_iter().collect(),
        held: BTreeMap::new(),
    };
    let mut sync: Synchronizer<Graph> = Synchronizer::new();
    let out = sync.handle_message(&mut graph, PEER, SynchronizerMessage::NewItem(10, 1000));
    assert_eq!(requests(&out), vec![(PEER, 3)]);

    // Item 5 comes in from elsewhere while item 10 waits for item 3.
    let out = sync.handle_message(&mut graph, OTHER, SynchronizerMessage::NewItem(5, 500));
    assert!(out.is_empty());
    assert!(sync.is_in_flight(PEER, 10));
    assert!(sync.is_requested(PEER, 3));
    assert!(!sync.is_requested(PEER, 5));

    // Item 3 arrives: nothing is outstanding, and item 10 is accepted.
    let resolved = SynchronizerMessage::DependencyResolved(ItemWithId {
        item_id: 3,
        item: 300,
    });
    let out = sync.handle_message(&mut graph, PEER, resolved);
    assert!(out.is_empty());
    assert_eq!(sync.len(), 0);
    assert_eq!(graph.held.get(&10), Some(&1000));
}

#[test]
fn accepted_items_release_one_another() {
    // 30 needs 20, which needs 10.
    let mut graph = Graph {
        needs: [(30, vec![20]), (20, vec![10])].into_iter().collect(),
        held: BTreeMap::new(),
    };
    let mut sync: Synchronizer<Graph> = Synchronizer::new();
    let out = sync.handle_message(&mut graph, PEER, SynchronizerMessage::NewItem(30, 3));
    assert_eq!(requests(&out), vec![(PEER, 20)]);
    let out = sync.handle_message(&mut graph, PEER, SynchronizerMessage::NewItem(20, 2));
    assert_eq!(requests(&out), vec![(PEER, 10)]);
    assert_eq!(sync.len(), 2);
    let out = sync.handle_message(&mut graph, PEER, SynchronizerMessage::NewItem(10, 1));
    assert!(out.is_empty());
    assert_eq!(sync.len(), 0);
    assert_eq!(graph.held.len(), 3);
}

#[test]
fn handle_result_on_acceptance_without_dependents_is_silent() {
    let mut chain = Chain::new();
    let mut sync: Synchronizer<Chain> = Synchronizer::new();
    sync.handle_message(&mut chain, PEER, SynchronizerMessage::NewItem(2, 102));
    let out = sync.handle_result(&mut chain, OTHER, 9, 109, HandleNewItemResult::Accepted);
    assert!(out.is_empty());
    assert_eq!(sync.len(), 1);
    assert!(sync.is_requested(PEER, 0));
}

#[test]
fn reply_to_request_goes_to_the_sender() {
    let found = Some(ItemWithId {
        item_id: 4,
        item: 44,
    });
    let out = Synchronizer::<Chain>::reply_to_request(OTHER, found);
    assert_eq!(out.len(), 1);
    assert_eq!(out[0].0, OTHER);
    assert!(matches!(
        out[0].1,
        SynchronizerMessage::DependencyResolved(ItemWithId { item_id: 4, item: 44 })
    ));
    assert!(Synchronizer::<Chain>::reply_to_request(OTHER, None).is_empty());
}

#[test]
fn items_that_stay_keep_their_order_and_their_other_dependencies() {
    let mut graph = Graph {
        needs: [(40, vec![1, 2]), (50, vec![3]), (60, vec![1, 4])].into_iter().collect(),
        held: BTreeMap::new(),
    };
    let mut sync: Synchronizer<Graph> = Synchronizer::new();
    let out = sync.handle_message(&mut graph, PEER, SynchronizerMessage::NewItem(40, 4));
    assert_eq!(requests(&out), vec![(PEER, 1)]);
    let out = sync.handle_message(&mut graph, OTHER, SynchronizerMessage::NewItem(50, 5));
    assert_eq!(requests(&out), vec![(OTHER, 3)]);
    let out = sync.handle_message(&mut graph, 9, SynchronizerMessage::NewItem(60, 6));
    assert_eq!(requests(&out), vec![(9, 1)]);

    // Item 1 arrives: the items 40 and 60 go on to their next dependency, in the order in
    // which they were queued, and item 50 still waits for item 3.
    let out = sync.handle_message(&mut graph, OTHER, SynchronizerMessage::NewItem(1, 100));
    assert_eq!(requests(&out), vec![(PEER, 2), (9, 4)]);
    assert_eq!(sync.len(), 3);
    assert!(sync.is_requested(PEER, 2));
    assert!(sync.is_requested(OTHER, 3));
    assert!(sync.is_requested(9, 4));
    assert!(!sync.is_requested(PEER, 1));

    // Item 3 releases item 50 only.
    let out = sync.handle_message(&mut graph, PEER, SynchronizerMessage::NewItem(3, 300));
    assert!(out.is_empty());
    assert_eq!(sync.len(), 2);
    assert!(graph.held.contains_key(&50));
    assert!(sync.is_in_flight(PEER, 40));
    assert!(sync.is_in_flight(9, 60));
}
