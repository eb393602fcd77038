use highway_core::consensus::{ConsensusProtocolResult, TimerId};
use highway_core::dep_spec::{BlockIndex, PotholeDepSpec};
use highway_core::pothole::{
    into_consenus_result, message_results, timer_results, PotholeResult, PotholeWrapper,
};
use highway_core::synchronizer::{DependencySpec, HandleNewItemResult, SynchronizerMessage};
use std::collections::BTreeSet;

fn deps(indices: &[BlockIndex]) -> BTreeSet<BlockIndex> {
    indices.iter().copied().collect()
}

#[test]
fn dep_spec_hands_out_least_index_first() {
    let mut spec: PotholeDepSpec<u32> = PotholeDepSpec::new(deps(&[9, 3, 5]));
    assert!(!spec.all_resolved());
    assert_eq!(spec.next_dependency(), Some(3));
    assert_eq!(spec.next_dependency(), Some(5));
    assert_eq!(spec.next_dependency(), Some(9));
    assert_eq!(spec.next_dependency(), None);
    // All were asked for; none has arrived.
    assert!(!spec.all_resolved());
}

#[test]
fn dep_spec_resolves_in_any_order() {
    let mut spec: PotholeDepSpec<u32> = PotholeDepSpec::new(deps(&[1, 2, 3]));
    assert_eq!(spec.next_dependency(), Some(1));
    // One that was not asked for yet.
    assert!(spec.resolve_dependency(3));
    // One that was asked for.
    assert!(spec.resolve_dependency(1));
    // One that is not outstanding.
    assert!(!spec.resolve_dependency(1));
    assert!(!spec.resolve_dependency(7));
    assert!(!spec.all_resolved());
    assert_eq!(spec.next_dependency(), Some(2));
    assert_eq!(spec.next_dependency(), None);
    assert!(spec.resolve_dependency(2));
    assert!(spec.all_resolved());
}

#[test]
fn dep_spec_without_dependencies_is_resolved() {
    let mut spec: PotholeDepSpec<u32> = PotholeDepSpec::new(BTreeSet::new());
    assert!(spec.all_resolved());
    assert_eq!(spec.next_dependency(), None);
}

#[test]
fn wrapper_queues_finalized_blocks_in_order() {
    let mut wrapper: PotholeWrapper<u32, &str> = PotholeWrapper::new("engine");
    assert_eq!(*wrapper.pothole(), "engine");
    assert_eq!(wrapper.poll(), None);

    let reports = vec![
        PotholeResult::FinalizedBlock(0, 100),
        PotholeResult::ScheduleTimer(1, 5000),
        PotholeResult::FinalizedBlock(1, 101),
        PotholeResult::CreateNewBlock,
    ];
    let verdict = wrapper.handle_new_block_result(Ok(reports));
    assert!(matches!(verdict, HandleNewItemResult::Accepted));
    let verdict = wrapper.handle_new_block_result(Ok(vec![PotholeResult::FinalizedBlock(2, 102)]));
    assert!(matches!(verdict, HandleNewItemResult::Accepted));

    assert_eq!(wrapper.poll(), Some((0, 100)));
    assert_eq!(wrapper.poll(), Some((1, 101)));
    assert_eq!(wrapper.poll(), Some((2, 102)));
    assert_eq!(wrapper.poll(), None);
}

#[test]
fn wrapper_turns_missing_blocks_into_dependencies() {
    let mut wrapper: PotholeWrapper<u32, ()> = PotholeWrapper::new(());
    match wrapper.handle_new_block_result(Err(deps(&[4, 2]))) {
        HandleNewItemResult::DependenciesMissing(mut spec) => {
            assert_eq!(spec.next_dependency(), Some(2));
            assert_eq!(spec.next_dependency(), Some(4));
            assert_eq!(spec.next_dependency(), None);
        }
        HandleNewItemResult::Accepted => panic!("accepted"),
    }
    assert_eq!(wrapper.poll(), None);
}

#[test]
fn wrapper_gives_access_to_the_engine() {
    let mut wrapper: PotholeWrapper<u32, Vec<u8>> = PotholeWrapper::new(vec![1]);
    wrapper.pothole_mut().push(2);
    assert_eq!(*wrapper.pothole(), vec![1, 2]);
}

#[test]
fn dependency_item_carries_the_index() {
    let found = PotholeWrapper::<u32, ()>::dependency_item(&3, Some(103)).unwrap();
    assert_eq!(found.item_id, 3);
    assert_eq!(found.item, 103);
    assert!(PotholeWrapper::<u32, ()>::dependency_item(&3, None).is_none());
}

#[test]
fn engine_reports_become_requests_to_the_driver() {
    match into_consenus_result(PotholeResult::<u32>::ScheduleTimer(7, 1234)) {
        Some(ConsensusProtocolResult::ScheduleTimer(instant, timer_id)) => {
            assert_eq!(instant, 1234);
            assert_eq!(timer_id, TimerId(7));
        }
        _ => panic!("no timer"),
    }
    assert!(matches!(
        into_consenus_result(PotholeResult::<u32>::CreateNewBlock),
        Some(ConsensusProtocolResult::CreateNewBlock)
    ));
    assert!(into_consenus_result(PotholeResult::FinalizedBlock(1, 5u32)).is_none());
}

#[test]
fn timer_results_keep_order_and_drop_finalized_blocks() {
    let reports = vec![
        PotholeResult::CreateNewBlock,
        PotholeResult::FinalizedBlock(0, 1u32),
        PotholeResult::ScheduleTimer(2, 30),
        PotholeResult::ScheduleTimer(1, 20),
    ];
    let results = timer_results(reports);
    assert_eq!(results.len(), 3);
    assert!(matches!(results[0], ConsensusProtocolResult::CreateNewBlock));
    assert!(matches!(
        results[1],
        ConsensusProtocolResult::ScheduleTimer(30, TimerId(2))
    ));
    assert!(matches!(
        results[2],
        ConsensusProtocolResult::ScheduleTimer(20, TimerId(1))
    ));
}

#[test]
fn messages_are_wrapped_for_the_driver() {
    let messages = vec![
        (3, SynchronizerMessage::<PotholeDepSpec<u32>>::RequestDependency(9)),
        (4, SynchronizerMessage::NewItem(1, 11)),
    ];
    let results = message_results(messages);
    assert_eq!(results.len(), 2);
    assert!(matches!(
        results[0],
        ConsensusProtocolResult::CreatedNewMessage((3, SynchronizerMessage::RequestDependency(9)))
    ));
    assert!(matches!(
        results[1],
        ConsensusProtocolResult::CreatedNewMessage((4, SynchronizerMessage::NewItem(1, 11)))
    ));
}
