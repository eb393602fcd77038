use highway_core::evidence::Evidence;
use highway_core::state::{log2, State, VoteError};
use highway_core::tallies::Tallies;
use highway_core::traits::{Context, StdContext};
use highway_core::validators::ValidatorIndex;
use highway_core::vertex::{Dependency, SignedWireVote, WireVote};
use highway_core::vote::{Observation, Panorama};
use highway_core::weight::Weight;
use std::collections::hash_map::DefaultHasher;
use std::hash::Hasher;

const ALICE: ValidatorIndex = ValidatorIndex(0);
const BOB: ValidatorIndex = ValidatorIndex(1);
const CAROL: ValidatorIndex = ValidatorIndex(2);

const N: Observation = Observation::Absent;
const F: Observation = Observation::Faulty;

type TestState = State<StdContext>;

fn c(hash: u64) -> Observation {
    Observation::Correct(hash)
}

fn wire(
    instant: u64,
    sender: ValidatorIndex,
    seq_number: u64,
    obs: &[Observation],
    values: Option<Vec<u64>>,
) -> SignedWireVote {
    SignedWireVote {
        wire_vote: WireVote {
            panorama: Panorama(obs.to_vec()),
            sender,
            values,
            seq_number,
            instant,
        },
        signature: 1000 + instant,
    }
}

fn must_add(state: &mut TestState, swvote: SignedWireVote) -> u64 {
    let hash = swvote.hash::<StdContext>();
    assert!(!state.has_vote(hash));
    assert!(state.add_vote(swvote).is_ok());
    assert!(state.has_vote(hash));
    hash
}

fn cause(state: &mut TestState, swvote: SignedWireVote) -> Option<VoteError> {
    state.add_vote(swvote).err().map(|err| err.cause)
}

fn new_state() -> TestState {
    State::new(&[Weight(3), Weight(4), Weight(5)])
}

/// Alice: a0 ————— a1
///                /
/// Bob:   b0 —— b1
///          \  /
/// Carol:    c0
fn linear() -> (TestState, [u64; 5]) {
    let mut state = new_state();
    let a0 = must_add(&mut state, wire(0, ALICE, 0, &[N, N, N], Some(vec![0xA])));
    let b0 = must_add(&mut state, wire(0, BOB, 0, &[N, N, N], Some(vec![0xB])));
    let c0 = must_add(&mut state, wire(0, CAROL, 0, &[N, c(b0), N], None));
    let b1 = must_add(&mut state, wire(0, BOB, 1, &[N, c(b0), c(c0)], None));
    let a1 = must_add(&mut state, wire(0, ALICE, 1, &[c(a0), c(b1), c(c0)], None));
    (state, [a0, b0, c0, b1, a1])
}

#[test]
fn linear_history_gives_latest_votes_and_no_evidence() {
    let (state, [_a0, _b0, c0, b1, a1]) = linear();
    assert_eq!(*state.panorama(), Panorama(vec![c(a1), c(b1), c(c0)]));
    for idx in [ALICE, BOB, CAROL] {
        assert!(!state.has_evidence(idx));
        assert!(state.opt_evidence(idx).is_none());
    }
}

#[test]
fn wrong_sequence_number_is_rejected_and_changes_nothing() {
    let (mut state, [_a0, _b0, c0, b1, a1]) = linear();
    let swvote = wire(0, CAROL, 2, &[N, c(b1), c(c0)], None);
    let hash = swvote.hash::<StdContext>();
    let err = state.add_vote(swvote.clone()).unwrap_err();
    assert_eq!(err.cause, VoteError::SequenceNumber);
    // The caller gets the vote back.
    assert_eq!(err.wvote, swvote);
    assert!(!state.has_vote(hash));
    assert_eq!(*state.panorama(), Panorama(vec![c(a1), c(b1), c(c0)]));
}

#[test]
fn inconsistent_panorama_is_rejected() {
    let (mut state, [_a0, _b0, _c0, b1, _a1]) = linear();
    // b1 has seen c0, so a vote that cites b1 must have seen it, too.
    assert_eq!(
        cause(&mut state, wire(0, CAROL, 1, &[N, c(b1), N], None)),
        Some(VoteError::Panorama)
    );
}

#[test]
fn vote_without_block_needs_a_nonempty_panorama() {
    let mut state = new_state();
    assert_eq!(
        cause(&mut state, wire(0, ALICE, 0, &[N, N, N], None)),
        Some(VoteError::Panorama)
    );
    assert!(state.add_vote(wire(0, ALICE, 0, &[N, N, N], Some(vec![]))).is_ok());
}

#[test]
fn vote_by_a_sender_it_calls_faulty_is_rejected() {
    let (mut state, [a0, _b0, c0, b1, _a1]) = linear();
    must_add(&mut state, wire(1, ALICE, 1, &[c(a0), c(b1), c(c0)], None));
    assert!(state.has_evidence(ALICE));
    assert_eq!(
        cause(&mut state, wire(2, ALICE, 2, &[F, c(b1), c(c0)], None)),
        Some(VoteError::Panorama)
    );
}

#[test]
fn panorama_of_wrong_length_or_unknown_sender_is_rejected() {
    let (mut state, [a0, b0, _c0, _b1, _a1]) = linear();
    assert_eq!(
        cause(&mut state, wire(0, BOB, 1, &[N, c(b0)], None)),
        Some(VoteError::Panorama)
    );
    assert_eq!(
        cause(&mut state, wire(0, BOB, 1, &[N, c(b0), N, N], None)),
        Some(VoteError::Panorama)
    );
    assert_eq!(
        cause(&mut state, wire(0, ValidatorIndex(3), 0, &[c(a0), N, N], None)),
        Some(VoteError::Panorama)
    );
    // A vote listed for a validator that did not cast it.
    assert_eq!(
        cause(&mut state, wire(0, CAROL, 0, &[c(b0), N, N], None)),
        Some(VoteError::Panorama)
    );
}

#[test]
fn sequence_number_must_continue_the_swimlane() {
    let (mut state, [a0, _b0, c0, b1, a1]) = linear();
    // No earlier vote cited: the sequence number must be 0.
    assert_eq!(
        cause(&mut state, wire(5, ALICE, 1, &[N, c(b1), c(c0)], None)),
        Some(VoteError::SequenceNumber)
    );
    // An earlier vote cited: the sequence number must be one more than that vote's.
    assert_eq!(
        cause(&mut state, wire(5, ALICE, 1, &[c(a1), c(b1), c(c0)], None)),
        Some(VoteError::SequenceNumber)
    );
    assert_eq!(
        cause(&mut state, wire(5, ALICE, 0, &[c(a0), c(b1), c(c0)], None)),
        Some(VoteError::SequenceNumber)
    );
    assert!(state.add_vote(wire(5, ALICE, 2, &[c(a1), c(b1), c(c0)], None)).is_ok());
}

#[test]
fn stored_votes_obey_the_sequence_rule() {
    let (state, hashes) = linear();
    for hash in hashes {
        let vote = state.vote(hash);
        let own = vote.panorama.get(vote.sender);
        match own {
            Observation::Absent => assert_eq!(vote.seq_number, 0),
            Observation::Correct(prev) => {
                assert_eq!(state.vote(*prev).seq_number + 1, vote.seq_number);
                assert_eq!(state.vote(*prev).sender, vote.sender);
                assert_eq!(vote.previous(), Some(*prev));
            }
            Observation::Faulty => panic!("own entry faulty"),
        }
        assert_eq!(vote.seq_number == 0, *own == Observation::Absent);
    }
}

#[test]
fn stored_blocks_obey_the_height_rule() {
    let mut state = new_state();
    let b0 = must_add(&mut state, wire(0, BOB, 0, &[N, N, N], Some(vec![1])));
    let b1 = must_add(&mut state, wire(0, BOB, 1, &[N, c(b0), N], Some(vec![2, 3])));
    let b2 = must_add(&mut state, wire(0, BOB, 2, &[N, c(b1), N], Some(vec![])));
    let a0 = must_add(&mut state, wire(0, ALICE, 0, &[N, c(b2), N], None));

    assert_eq!(state.block(b0).height, 0);
    assert_eq!(state.block(b0).parent(), None);
    assert_eq!(state.block(b1).height, 1);
    assert_eq!(state.block(b1).parent(), Some(b0));
    assert_eq!(state.block(b1).values, vec![2, 3]);
    assert_eq!(state.block(b2).height, 2);
    assert_eq!(state.block(b2).parent(), Some(b1));
    assert_eq!(state.block(b2).skip_idx, vec![b1, b0]);
    // A ballot brings no block, and votes for the fork choice of its panorama.
    assert!(state.opt_block(a0).is_none());
    assert_eq!(state.vote(a0).block, b2);
    assert_eq!(state.vote(b2).block, b2);

    assert_eq!(state.find_ancestor(b2, 0), Some(b0));
    assert_eq!(state.find_ancestor(b2, 1), Some(b1));
    assert_eq!(state.find_ancestor(b2, 2), Some(b2));
    assert_eq!(state.find_ancestor(b2, 3), None);
    assert_eq!(state.find_ancestor(b0, 1), None);
}

#[test]
fn skip_lists_point_to_powers_of_two() {
    let mut state = new_state();
    let mut a = vec![must_add(&mut state, wire(0, ALICE, 0, &[N, N, N], Some(vec![0xA])))];
    let mut blocks = vec![a[0]];
    for i in 1..=12u64 {
        let prev = a[i as usize - 1];
        let hash = must_add(&mut state, wire(0, ALICE, i, &[c(prev), N, N], Some(vec![i])));
        a.push(hash);
        blocks.push(hash);
    }
    for (n, hash) in a.iter().enumerate() {
        let vote = state.vote(*hash);
        let expected: Vec<u64> = (0..64)
            .take_while(|i| n > 0 && n % (1usize << i) == 0)
            .map(|i| a[n - (1usize << i)])
            .collect();
        assert_eq!(vote.skip_idx, expected);
        assert_eq!(state.block(*hash).skip_idx, expected);
        assert_eq!(state.block(*hash).height, n as u64);
        for k in 0..=n {
            assert_eq!(state.find_in_swimlane(*hash, k as u64), a[k]);
            assert_eq!(state.find_ancestor(*hash, k as u64), Some(blocks[k]));
        }
    }
    assert_eq!(state.vote(a[8]).skip_idx, vec![a[7], a[6], a[4], a[0]]);
    assert_eq!(state.vote(a[12]).skip_idx, vec![a[11], a[10], a[8]]);
}

#[test]
fn swimlane_lists_the_votes_latest_first() {
    let (state, [a0, b0, _c0, b1, a1]) = linear();
    let lane: Vec<u64> = state.swimlane(a1).into_iter().map(|(hash, _)| hash).collect();
    assert_eq!(lane, vec![a1, a0]);
    let lane = state.swimlane(b1);
    assert_eq!(lane.len(), 2);
    assert_eq!(lane[0].0, b1);
    assert_eq!(lane[0].1.seq_number, 1);
    assert_eq!(lane[1].0, b0);
    assert_eq!(lane[1].1.seq_number, 0);
    assert_eq!(state.swimlane(b0).len(), 1);
}

#[test]
fn missing_dependency_is_the_first_unknown_reference() {
    let (state, [_a0, _b0, c0, b1, _a1]) = linear();
    assert_eq!(
        state.missing_dependency(&Panorama(vec![c(41), c(42), F])),
        Some(Dependency::Vote(41))
    );
    assert_eq!(
        state.missing_dependency(&Panorama(vec![F, c(42), F])),
        Some(Dependency::Evidence(ALICE))
    );
    assert_eq!(
        state.missing_dependency(&Panorama(vec![N, c(b1), F])),
        Some(Dependency::Evidence(CAROL))
    );
    assert_eq!(state.missing_dependency(&Panorama(vec![N, c(b1), c(c0)])), None);
    assert_eq!(state.missing_dependency(&Panorama(vec![])), None);
    assert_eq!(
        state.missing_obs_dep(BOB, &c(7)),
        Some(Dependency::Vote(7))
    );
    assert_eq!(state.missing_obs_dep(BOB, &c(b1)), None);
    assert_eq!(state.missing_obs_dep(BOB, &N), None);
}

#[test]
fn vote_with_a_missing_dependency_fails_on_its_panorama() {
    let (mut state, [a0, _b0, c0, b1, _a1]) = linear();
    for obs in [[c(a0), c(b1), c(99)], [c(a0), F, c(c0)]] {
        let pan = Panorama(obs.to_vec());
        assert!(state.missing_dependency(&pan).is_some());
        assert!(!state.is_panorama_valid(&pan));
        assert_eq!(
            cause(&mut state, wire(0, ALICE, 1, &obs, None)),
            Some(VoteError::Panorama)
        );
    }
    let obs = [c(a0), c(b1), c(c0)];
    assert!(state.missing_dependency(&Panorama(obs.to_vec())).is_none());
    assert!(state.add_vote(wire(9, ALICE, 1, &obs, None)).is_ok());
}

#[test]
fn every_panorama_is_at_least_itself() {
    let (state, [a0, b0, c0, b1, a1]) = linear();
    for obs in [
        vec![N, N, N],
        vec![c(a0), c(b0), c(c0)],
        vec![c(a1), c(b1), c(c0)],
        vec![F, c(b1), F],
    ] {
        let pan = Panorama(obs);
        assert!(state.panorama_geq(&pan, &pan));
    }
}

#[test]
fn panorama_comparison_follows_the_swimlanes() {
    let (state, [a0, b0, c0, b1, a1]) = linear();
    // A later vote of the same sender is at least an earlier one, not the other way round.
    assert!(state.obs_geq(&c(a1), &c(a0)));
    assert!(!state.obs_geq(&c(a0), &c(a1)));
    // a1 has seen b1 and c0.
    assert!(state.obs_geq(&c(a1), &c(b1)));
    assert!(state.obs_geq(&c(a1), &c(b0)));
    assert!(state.obs_geq(&c(a1), &c(c0)));
    // b0 has seen nothing of Carol.
    assert!(!state.obs_geq(&c(b0), &c(c0)));
    assert!(state.obs_geq(&F, &c(a1)));
    assert!(state.obs_geq(&N, &N));
    assert!(!state.obs_geq(&N, &c(a0)));
    assert!(!state.obs_geq(&N, &F));
    assert!(!state.obs_geq(&c(a0), &F));

    assert!(state.sees_correct(&Panorama(vec![c(a1), N, N]), a0));
    assert!(state.sees_correct(&Panorama(vec![c(a1), N, N]), a1));
    assert!(!state.sees_correct(&Panorama(vec![c(a0), N, N]), a1));
    assert!(!state.sees_correct(&Panorama(vec![F, N, N]), a0));
    assert!(!state.sees_correct(&Panorama(vec![N, c(b1), N]), a0));

    let later = Panorama(vec![c(a1), c(b1), c(c0)]);
    let earlier = Panorama(vec![c(a0), c(b0), N]);
    assert!(state.panorama_geq(&later, &earlier));
    assert!(!state.panorama_geq(&earlier, &later));
    assert!(state.is_panorama_valid(&later));
    assert!(state.is_panorama_valid(&Panorama(vec![N, N, N])));
    // b1 has seen c0.
    assert!(!state.is_panorama_valid(&Panorama(vec![N, c(b1), N])));
}

#[test]
fn equivocation_leaves_one_piece_of_evidence_and_a_faulty_sender() {
    let (mut state, [a0, _b0, c0, b1, a1]) = linear();
    let rival = wire(1, ALICE, 1, &[c(a0), c(b1), c(c0)], None);
    let first = state.wire_vote(a1).unwrap();
    let ae1 = must_add(&mut state, rival.clone());
    assert_ne!(ae1, a1);

    assert_eq!(*state.panorama().get(ALICE), F);
    assert!(state.has_evidence(ALICE));
    assert!(!state.has_evidence(BOB));
    assert!(!state.has_evidence(CAROL));
    let evidence = state.opt_evidence(ALICE).unwrap();
    assert_eq!(*evidence, Evidence::Equivocation(first, rival));
    assert_eq!(evidence.perpetrator(), ALICE);
    let Evidence::Equivocation(vote0, vote1) = evidence;
    assert_eq!(vote0.wire_vote.sender, vote1.wire_vote.sender);
    assert_eq!(vote0.wire_vote.seq_number, vote1.wire_vote.seq_number);
    assert_ne!(vote0.hash::<StdContext>(), vote1.hash::<StdContext>());

    // Both votes stay, and later votes may cite either branch or the fault.
    assert!(state.has_vote(a1) && state.has_vote(ae1));
    must_add(&mut state, wire(0, BOB, 2, &[F, c(b1), c(c0)], None));
    must_add(&mut state, wire(0, CAROL, 1, &[c(ae1), c(b1), c(c0)], None));
    // A further vote of the faulty validator is stored, and the validator stays faulty.
    must_add(&mut state, wire(0, ALICE, 2, &[c(ae1), c(b1), c(c0)], None));
    assert_eq!(*state.panorama().get(ALICE), F);
}

#[test]
fn fork_choice_is_a_function_of_the_store() {
    let (state, [a0, b0, c0, b1, a1]) = linear();
    let (again, _) = linear();
    for obs in [
        vec![N, N, N],
        vec![c(a0), N, N],
        vec![N, c(b0), c(c0)],
        vec![c(a1), c(b1), c(c0)],
    ] {
        let pan = Panorama(obs);
        let choice = state.fork_choice(&pan);
        assert_eq!(choice, state.fork_choice(&pan));
        assert_eq!(choice, again.fork_choice(&pan));
    }
    assert_eq!(state.fork_choice(&Panorama(vec![N, N, N])), None);
    assert_eq!(state.fork_choice(&Panorama(vec![c(a0), N, N])), Some(a0));
    // Bob and Carol outweigh Alice.
    assert_eq!(state.fork_choice(state.panorama()), Some(b0));
}

#[test]
fn fork_choice_breaks_ties_by_the_higher_hash() {
    let mut state: TestState = State::new(&[Weight(2), Weight(2), Weight(0)]);
    let a0 = must_add(&mut state, wire(0, ALICE, 0, &[N, N, N], Some(vec![1])));
    let b0 = must_add(&mut state, wire(0, BOB, 0, &[N, N, N], Some(vec![2])));
    assert_eq!(
        state.fork_choice(&Panorama(vec![c(a0), c(b0), N])),
        Some(a0.max(b0))
    );
}

#[test]
fn fork_choice_with_zero_weights_follows_the_votes() {
    let mut state: TestState = State::new(&[Weight(0), Weight(0), Weight(0)]);
    let a0 = must_add(&mut state, wire(0, ALICE, 0, &[N, N, N], Some(vec![1])));
    let a1 = must_add(&mut state, wire(0, ALICE, 1, &[c(a0), N, N], Some(vec![2])));
    let b0 = must_add(&mut state, wire(0, BOB, 0, &[c(a1), N, N], Some(vec![3])));
    assert_eq!(state.block(b0).height, 2);
    assert_eq!(state.fork_choice(&Panorama(vec![c(a1), c(b0), N])), Some(b0));
    assert_eq!(state.fork_choice(&Panorama(vec![c(a1), N, N])), Some(a1));
}

#[test]
fn wire_vote_gives_back_what_was_added() {
    let mut state = new_state();
    let with_block = wire(17, BOB, 0, &[N, N, N], Some(vec![5, 6, 7]));
    let b0 = must_add(&mut state, with_block.clone());
    assert_eq!(state.wire_vote(b0), Some(with_block));
    let empty_block = wire(18, ALICE, 0, &[N, c(b0), N], Some(vec![]));
    let a0 = must_add(&mut state, empty_block.clone());
    assert_eq!(state.wire_vote(a0), Some(empty_block));
    let ballot = wire(19, CAROL, 0, &[c(a0), c(b0), N], None);
    let c0 = must_add(&mut state, ballot.clone());
    assert_eq!(state.wire_vote(c0), Some(ballot));
    assert_eq!(state.wire_vote(12345), None);
    assert_eq!(state.vote(c0).instant, 19);
    assert_eq!(state.vote(c0).signature, 1019);
}

#[test]
fn a_known_vote_changes_nothing() {
    let (mut state, [a0, _b0, c0, b1, a1]) = linear();
    let known = state.wire_vote(a1).unwrap();
    assert_eq!(known.hash::<StdContext>(), a1);
    assert!(state.add_vote(known).is_ok());
    assert!(!state.has_evidence(ALICE));
    assert_eq!(*state.panorama(), Panorama(vec![c(a1), c(b1), c(c0)]));
    assert_eq!(state.vote(a1).skip_idx, vec![a0]);
}

#[test]
fn second_evidence_against_a_validator_changes_nothing() {
    let mut state = new_state();
    let first = Evidence::Equivocation(
        wire(1, BOB, 0, &[N, N, N], Some(vec![1])),
        wire(2, BOB, 0, &[N, N, N], Some(vec![1])),
    );
    let second = Evidence::Equivocation(
        wire(3, BOB, 0, &[N, N, N], Some(vec![1])),
        wire(4, BOB, 0, &[N, N, N], Some(vec![1])),
    );
    assert!(!state.has_evidence(BOB));
    state.add_evidence(first.clone());
    assert_eq!(state.opt_evidence(BOB), Some(&first));
    state.add_evidence(second);
    assert_eq!(state.opt_evidence(BOB), Some(&first));
    state.add_evidence(first.clone());
    assert_eq!(state.opt_evidence(BOB), Some(&first));
    assert!(!state.has_evidence(ALICE));
    // With the evidence there, a panorama may call Bob faulty.
    assert_eq!(state.missing_dependency(&Panorama(vec![N, F, N])), None);
}

#[test]
fn accessors_give_weights_and_lookups() {
    let (state, [a0, b0, _c0, _b1, _a1]) = linear();
    assert_eq!(state.weights(), &[Weight(3), Weight(4), Weight(5)]);
    assert_eq!(state.weight(BOB), Weight(4));
    assert!(state.opt_vote(a0).is_some());
    assert!(state.opt_vote(1).is_none());
    assert!(!state.has_vote(1));
    assert_eq!(state.vote(a0).sender, ALICE);
    assert!(state.opt_block(b0).is_some());
    assert_eq!(state.block(b0).values, vec![0xB]);
}

#[test]
fn tallies_decide_by_majority_or_by_the_best_block() {
    let mut state = new_state();
    //          a0 — a1
    //        /
    // b0 ————
    //        \
    //          c0
    let b0 = must_add(&mut state, wire(0, BOB, 0, &[N, N, N], Some(vec![0xB0])));
    let a0 = must_add(&mut state, wire(0, ALICE, 0, &[N, c(b0), N], Some(vec![0xA0])));
    let c0 = must_add(&mut state, wire(0, CAROL, 0, &[N, c(b0), N], Some(vec![0xC0])));
    let a1 = must_add(&mut state, wire(0, ALICE, 1, &[c(a0), c(b0), N], Some(vec![0xA1])));

    let mut tallies = Tallies::new();
    assert!(tallies.is_empty());
    assert_eq!(tallies.find_decided(&state), None);
    assert_eq!(tallies.weight(), 0);

    // Alice (3) votes for a1, Bob (4) for a0, Carol (5) for c0.
    tallies.add(2, a1, Weight(3));
    tallies.add(1, a0, Weight(4));
    tallies.add(1, c0, Weight(5));
    assert!(!tallies.is_empty());
    assert_eq!(tallies.weight(), 12);
    // At height 1, a0 has 7 of 12 behind it; a1 at height 2 has only 3.
    assert_eq!(tallies.find_decided(&state), Some((1, a0)));

    let above = tallies.filter_descendants(1, a0, &state);
    assert_eq!(above.weight(), 3);
    assert_eq!(above.find_decided(&state), Some((2, a1)));
    let above = above.filter_descendants(2, a1, &state);
    assert!(above.is_empty());

    // Without a majority anywhere above, the best block at the lowest level is selected.
    let mut tallies = Tallies::new();
    tallies.add(1, a0, Weight(6));
    tallies.add(1, c0, Weight(6));
    assert_eq!(tallies.find_decided(&state), Some((0, b0)));
    let above = tallies.filter_descendants(0, b0, &state);
    assert_eq!(above.weight(), 12);
    assert_eq!(above.find_decided(&state), Some((1, a0.max(c0))));
}

#[test]
fn log2_rounds_down() {
    assert_eq!(log2(1), 0);
    assert_eq!(log2(2), 1);
    assert_eq!(log2(3), 1);
    assert_eq!(log2(1023), 9);
    assert_eq!(log2(1024), 10);
    assert_eq!(log2(u64::MAX), 63);
    assert_eq!(log2(1 << 63), 63);
}

#[test]
fn std_context_hashes_with_the_default_hasher() {
    let data = [1u8, 2, 3, 250];
    let mut hasher = DefaultHasher::new();
    hasher.write(&data);
    assert_eq!(StdContext::hash(&data), hasher.finish());
    assert_eq!(StdContext::hash(&data), StdContext::hash(&data));
    assert_ne!(StdContext::hash(&data), StdContext::hash(&[1u8, 2, 3]));
}

/// A small deterministic generator of numbers.
struct Numbers(u64);

impl Numbers {
    fn next(&mut self, bound: u64) -> u64 {
        self.0 = self
            .0
            .wrapping_mul(6364136223846793005)
            .wrapping_add(1442695040888963407);
        (self.0 >> 33) % bound
    }
}

fn ancestor_at(state: &TestState, mut block: u64, level: u64) -> u64 {
    while state.block(block).height > level {
        block = state.block(block).parent().unwrap();
    }
    block
}

/// The fork choice, level by level, with parents followed one at a time.
fn reference_choice(state: &TestState, pan: &Panorama) -> Option<u64> {
    let mut entries: Vec<(u64, u128)> = pan
        .0
        .iter()
        .zip(state.weights())
        .filter_map(|(obs, weight)| {
            obs.correct()
                .map(|hash| (state.vote(hash).block, weight.0 as u128))
        })
        .collect();
    let mut level = 0;
    let mut choice = None;
    while !entries.is_empty() {
        let mut best: Option<(u128, u64)> = None;
        for (block, _) in &entries {
            let candidate = ancestor_at(state, *block, level);
            let score: u128 = entries
                .iter()
                .filter(|(other, _)| ancestor_at(state, *other, level) == candidate)
                .map(|(_, weight)| *weight)
                .sum();
            if best.map_or(true, |held| (score, candidate) > held) {
                best = Some((score, candidate));
            }
        }
        let selected = best.unwrap().1;
        choice = Some(selected);
        entries.retain(|(block, _)| {
            state.block(*block).height > level && ancestor_at(state, *block, level) == selected
        });
        level += 1;
    }
    choice
}

fn check_stored(state: &TestState, hashes: &[u64]) {
    for hash in hashes {
        let vote = state.vote(*hash);
        match vote.panorama.get(vote.sender) {
            Observation::Absent => assert_eq!(vote.seq_number, 0),
            Observation::Correct(prev) => {
                assert_eq!(state.vote(*prev).seq_number + 1, vote.seq_number)
            }
            Observation::Faulty => panic!("own entry faulty"),
        }
        for (i, entry) in vote.skip_idx.iter().enumerate() {
            assert_eq!(state.vote(*entry).sender, vote.sender);
            assert_eq!(state.vote(*entry).seq_number + (1 << i), vote.seq_number);
            assert_eq!(vote.seq_number % (1 << i), 0);
        }
        assert!(vote.seq_number == 0 || vote.seq_number % (1 << vote.skip_idx.len()) != 0);
        assert!(state.is_panorama_valid(&vote.panorama));
        assert!(state.missing_dependency(&vote.panorama).is_none());
        assert_eq!(state.wire_vote(*hash).unwrap().hash::<StdContext>(), *hash);
        let block = state.block(vote.block);
        match block.parent() {
            None => assert_eq!(block.height, 0),
            Some(parent) => assert_eq!(state.block(parent).height + 1, block.height),
        }
        for (i, entry) in block.skip_idx.iter().enumerate() {
            assert_eq!(state.block(*entry).height + (1 << i), block.height);
        }
        let lane = state.swimlane(*hash);
        assert_eq!(lane.len() as u64, vote.seq_number + 1);
        for (back, (earlier, _)) in lane.iter().enumerate() {
            assert_eq!(
                state.find_in_swimlane(*hash, vote.seq_number - back as u64),
                *earlier
            );
        }
    }
}

fn random_history(seed: u64, weights: &[Weight], steps: usize) {
    let n = weights.len();
    let mut numbers = Numbers(seed);
    let mut state: TestState = State::new(weights);
    let mut hashes: Vec<u64> = Vec::new();
    let mut added = 0;
    let mut faulty = 0;
    for step in 0..steps {
        let sender = ValidatorIndex(numbers.next(n as u64) as u32);
        // What the sender has seen: the view of some vote, with its own latest vote, or the
        // whole state.
        let mut obs: Vec<Observation> = if hashes.is_empty() || numbers.next(3) == 0 {
            state.panorama().0.clone()
        } else {
            let seen = hashes[numbers.next(hashes.len() as u64) as usize];
            let vote = state.vote(seen);
            let mut obs = vote.panorama.0.clone();
            obs[vote.sender.0 as usize] = c(seen);
            obs
        };
        let own = match state.panorama().get(sender) {
            Observation::Faulty => obs[sender.0 as usize],
            latest => {
                // Now and then the sender forgets its latest vote.
                if numbers.next(10) == 0 {
                    obs[sender.0 as usize]
                } else {
                    *latest
                }
            }
        };
        if own == F {
            continue;
        }
        obs[sender.0 as usize] = own;
        let seq_number = match own {
            Observation::Correct(prev) => state.vote(prev).seq_number + 1,
            _ => 0,
        };
        let pan = Panorama(obs.clone());
        let values = if pan.is_empty() || numbers.next(2) == 0 {
            Some(vec![step as u64])
        } else {
            None
        };
        let swvote = wire(step as u64, sender, seq_number, &obs, values);
        let hash = swvote.hash::<StdContext>();
        let valid = state.is_panorama_valid(&pan);
        assert_eq!(valid, state.validate_vote(&swvote.wire_vote).is_ok());
        let expected_choice = if valid { reference_choice(&state, &pan) } else { None };
        let before = state.panorama().clone();
        match state.add_vote(swvote.clone()) {
            Ok(()) => {
                assert!(valid);
                added += 1;
                hashes.push(hash);
                assert_eq!(state.wire_vote(hash), Some(swvote));
                let vote = state.vote(hash);
                if vote.block != hash {
                    assert_eq!(Some(vote.block), expected_choice);
                } else {
                    assert_eq!(state.block(hash).parent(), expected_choice);
                }
                assert!(state.panorama_geq(state.panorama(), &before));
                match state.panorama().get(sender) {
                    Observation::Faulty => assert!(state.has_evidence(sender)),
                    latest => assert_eq!(*latest, c(hash)),
                }
            }
            Err(err) => {
                assert!(!valid);
                assert_eq!(err.cause, VoteError::Panorama);
                assert_eq!(*state.panorama(), before);
                assert!(!state.has_vote(hash));
            }
        }
        let current = state.panorama().clone();
        assert_eq!(state.fork_choice(&current), reference_choice(&state, &current));
        if step % 16 == 0 {
            check_stored(&state, &hashes);
        }
    }
    check_stored(&state, &hashes);
    for idx in 0..n {
        if *state.panorama().get(ValidatorIndex(idx as u32)) == F {
            faulty += 1;
        }
    }
    assert!(added > steps / 4, "{} votes of {}", added, steps);
    assert!(faulty <= n);
}

#[test]
fn random_histories_keep_the_rules() {
    random_history(1, &[Weight(3), Weight(4), Weight(5)], 150);
    random_history(2, &[Weight(1), Weight(1), Weight(1), Weight(1)], 150);
    random_history(3, &[Weight(0), Weight(7), Weight(2), Weight(2), Weight(4)], 150);
    random_history(4, &[Weight(u64::MAX), Weight(u64::MAX), Weight(1)], 100);
}
