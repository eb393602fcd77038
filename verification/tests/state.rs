use highway_core::state::{log2, AddVoteError, State, VoteError, Weight};
use highway_core::traits::Context;
use highway_core::validators::ValidatorIndex;
use highway_core::vertex::{Dependency, SignedWireVote, WireVote};
use highway_core::vote::{Observation, Panorama};
use std::collections::hash_map::DefaultHasher;
use std::hash::Hasher;

const WEIGHTS: &[Weight] = &[Weight(3), Weight(4), Weight(5)];

const ALICE: ValidatorIndex = ValidatorIndex(0);
const BOB: ValidatorIndex = ValidatorIndex(1);
const CAROL: ValidatorIndex = ValidatorIndex(2);

const N: Observation = Observation::Absent;
const F: Observation = Observation::Faulty;

#[derive(Clone, Debug, PartialEq)]
struct TestContext;

impl Context for TestContext {
    fn hash(data: &[u8]) -> u64 {
        let mut hasher = DefaultHasher::new();
        hasher.write(data);
        hasher.finish()
    }
}

fn c(hash: u64) -> Observation {
    Observation::Correct(hash)
}

fn panorama(obs: [Observation; 3]) -> Panorama {
    Panorama(obs.to_vec())
}

/// A signed wire vote with instant 0.
fn vote(
    sender: ValidatorIndex,
    seq_number: u64,
    obs: [Observation; 3],
    values: Option<Vec<u64>>,
) -> SignedWireVote {
    vote_at(0, sender, seq_number, obs, values)
}

fn vote_at(
    instant: u64,
    sender: ValidatorIndex,
    seq_number: u64,
    obs: [Observation; 3],
    values: Option<Vec<u64>>,
) -> SignedWireVote {
    SignedWireVote {
        wire_vote: WireVote {
            panorama: panorama(obs),
            sender,
            values,
            seq_number,
            instant,
        },
        signature: 0,
    }
}

/// Adds the vote and returns its hash.
fn add(state: &mut State<TestContext>, swvote: SignedWireVote) -> Result<u64, AddVoteError> {
    let hash = swvote.hash::<TestContext>();
    state.add_vote(swvote)?;
    Ok(hash)
}

/// Returns the cause of the error, dropping the vote.
fn vote_err(err: AddVoteError) -> VoteError {
    err.cause
}

#[test]
fn add_vote() -> Result<(), AddVoteError> {
    let mut state: State<TestContext> = State::new(WEIGHTS);

    // Create votes as follows; a0, b0 are blocks:
    //
    // Alice: a0 ————— a1
    //                /
    // Bob:   b0 —— b1
    //          \  /
    // Carol:    c0
    let a0 = add(&mut state, vote(ALICE, 0, [N, N, N], Some(vec![0xA])))?;
    let b0 = add(&mut state, vote(BOB, 0, [N, N, N], Some(vec![0xB])))?;
    let c0 = add(&mut state, vote(CAROL, 0, [N, c(b0), N], None))?;
    let b1 = add(&mut state, vote(BOB, 1, [N, c(b0), c(c0)], None))?;
    let a1 = add(&mut state, vote(ALICE, 1, [c(a0), c(b1), c(c0)], None))?;

    // Wrong sequence number: Carol hasn't produced c1 yet.
    let wvote = vote(CAROL, 2, [N, c(b1), c(c0)], None);
    let opt_err = state.add_vote(wvote).err().map(vote_err);
    assert_eq!(Some(VoteError::SequenceNumber), opt_err);
    // Inconsistent panorama: If you see b1, you have to see c0, too.
    let wvote = vote(CAROL, 1, [N, c(b1), N], None);
    let opt_err = state.add_vote(wvote).err().map(vote_err);
    assert_eq!(Some(VoteError::Panorama), opt_err);

    // Alice has not equivocated yet, and not produced message A1.
    let missing = state.missing_dependency(&panorama([F, c(b1), c(c0)]));
    assert_eq!(Some(Dependency::Evidence(ALICE)), missing);
    let missing = state.missing_dependency(&panorama([c(42), c(b1), c(c0)]));
    assert_eq!(Some(Dependency::Vote(42)), missing);

    // Alice equivocates: A1 doesn't see a1.
    let ae1 = add(&mut state, vote_at(1, ALICE, 1, [c(a0), c(b1), c(c0)], None))?;
    assert_ne!(a1, ae1);
    assert!(state.has_evidence(ALICE));

    let missing = state.missing_dependency(&panorama([F, c(b1), c(c0)]));
    assert_eq!(None, missing);
    let missing = state.missing_dependency(&panorama([c(ae1), c(b1), c(c0)]));
    assert_eq!(None, missing);

    // Bob can see the equivocation.
    let b2 = add(&mut state, vote(BOB, 2, [F, c(b1), c(c0)], None))?;

    // The state's own panorama has been updated correctly.
    assert_eq!(*state.panorama(), panorama([F, c(b2), c(c0)]));
    Ok(())
}

#[test]
fn find_in_swimlane() -> Result<(), AddVoteError> {
    let mut state: State<TestContext> = State::new(WEIGHTS);
    let mut a = Vec::new();
    let wvote = vote(ALICE, 0, [N, N, N], Some(vec![0xA]));
    a.push(wvote.hash::<TestContext>());
    state.add_vote(wvote)?;
    for i in 1..10 {
        let ai = add(&mut state, vote(ALICE, i as u64, [c(a[i - 1]), N, N], None))?;
        a.push(ai);
    }

    // The predecessor with sequence number i should always equal a[i].
    for j in (a.len() - 2)..a.len() {
        for i in 0..j {
            assert_eq!(a[i], state.find_in_swimlane(a[j], i as u64));
        }
    }

    // The skip list index of a[k] includes a[k - 2^i] for each i such that 2^i divides k.
    assert_eq!(vec![a[8]], state.vote(a[9]).skip_idx);
    assert_eq!(vec![a[7], a[6], a[4], a[0]], state.vote(a[8]).skip_idx);
    Ok(())
}

#[test]
fn fork_choice() -> Result<(), AddVoteError> {
    let mut state: State<TestContext> = State::new(WEIGHTS);

    // Create blocks with scores as follows:
    //
    //          a0: 7 — a1: 3
    //        /       \
    // b0: 12           b2: 4
    //        \
    //          c0: 5 — c1: 5
    let b0 = add(&mut state, vote(BOB, 0, [N, N, N], Some(vec![0xB0])))?;
    let c0 = add(&mut state, vote(CAROL, 0, [N, c(b0), N], Some(vec![0xC0])))?;
    let c1 = add(&mut state, vote(CAROL, 1, [N, c(b0), c(c0)], Some(vec![0xC1])))?;
    let a0 = add(&mut state, vote(ALICE, 0, [N, c(b0), N], Some(vec![0xA0])))?;
    let b1 = add(&mut state, vote(BOB, 1, [c(a0), c(b0), N], None))?; // Just a ballot; not shown above.
    let a1 = add(&mut state, vote(ALICE, 1, [c(a0), c(b1), c(c1)], Some(vec![0xA1])))?;
    let b2 = add(&mut state, vote(BOB, 2, [c(a0), c(b1), N], Some(vec![0xB2])))?;

    // Alice built `a1` on top of `a0`, which had already 7 points.
    assert_eq!(Some(a0), state.block(state.vote(a1).block).parent());
    // The fork choice is now `b2`: At height 1, `a0` wins against `c0`.
    // At height 2, `b2` wins against `a1`. `c1` has most points but is not a child of `a0`.
    assert_eq!(Some(b2), state.fork_choice(state.panorama()));
    Ok(())
}

#[test]
fn test_log2() {
    assert_eq!(2, log2(0b100));
    assert_eq!(2, log2(0b101));
    assert_eq!(2, log2(0b111));
    assert_eq!(3, log2(0b1000));
}
