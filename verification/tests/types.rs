use highway_core::traits::StdContext;
use highway_core::validators::ValidatorIndex;
use highway_core::vertex::{clone_u64s, SignedWireVote, WireVote};
use highway_core::vote::{Observation, Panorama};
use highway_core::state::VoteError;
use highway_core::weight::Weight;

const N: Observation = Observation::Absent;
const F: Observation = Observation::Faulty;

#[test]
fn observation_correct_gives_the_hash() {
    assert_eq!(Observation::Correct(7).correct(), Some(7));
    assert_eq!(N.correct(), None);
    assert_eq!(F.correct(), None);
    assert!(Observation::Correct(0).is_correct());
    assert!(!N.is_correct());
    assert!(!F.is_correct());
}

#[test]
fn new_panorama_has_seen_nothing() {
    let pan = Panorama::new(4);
    assert_eq!(pan, Panorama(vec![N, N, N, N]));
    assert!(pan.is_empty());
    assert_eq!(Panorama::new(0), Panorama(vec![]));
    assert!(Panorama::new(0).is_empty());
}

#[test]
fn panorama_is_empty_without_correct_observation() {
    assert!(Panorama(vec![N, F, N]).is_empty());
    assert!(Panorama(vec![F, F]).is_empty());
    assert!(!Panorama(vec![N, F, Observation::Correct(1)]).is_empty());
}

#[test]
fn panorama_get_and_update() {
    let mut pan = Panorama::new(3);
    pan.update(ValidatorIndex(1), Observation::Correct(9));
    pan.update(ValidatorIndex(2), F);
    assert_eq!(*pan.get(ValidatorIndex(0)), N);
    assert_eq!(*pan.get(ValidatorIndex(1)), Observation::Correct(9));
    assert_eq!(*pan.get(ValidatorIndex(2)), F);
    pan.update(ValidatorIndex(1), N);
    assert_eq!(pan, Panorama(vec![N, N, F]));
}

#[test]
fn panorama_enumerates_by_index() {
    let pan = Panorama(vec![Observation::Correct(5), F, N, Observation::Correct(6)]);
    assert_eq!(
        pan.enumerate(),
        vec![
            (ValidatorIndex(0), Observation::Correct(5)),
            (ValidatorIndex(1), F),
            (ValidatorIndex(2), N),
            (ValidatorIndex(3), Observation::Correct(6)),
        ]
    );
    assert_eq!(
        pan.enumerate_correct(),
        vec![(ValidatorIndex(0), 5), (ValidatorIndex(3), 6)]
    );
    assert!(Panorama(vec![N, F]).enumerate_correct().is_empty());
    assert_eq!(pan.clone(), pan);
}

#[test]
fn weights_add_subtract_and_scale() {
    assert_eq!(Weight(3) + Weight(4), Weight(7));
    assert_eq!(Weight(9) - Weight(4), Weight(5));
    assert_eq!(Weight(5) * 3, Weight(15));
    assert_eq!(Weight(0) * 3, Weight(0));
    assert_eq!(Weight(0) + Weight(0), Weight(0));
    assert!(Weight(0) < Weight(1));
    assert_eq!(Weight::default(), Weight(0));
}

#[test]
fn canonical_bytes_of_a_ballot() {
    let wvote = WireVote {
        panorama: Panorama(vec![N, Observation::Correct(0x0102030405060708), F]),
        sender: ValidatorIndex(2),
        values: None,
        seq_number: 3,
        instant: 0x1122,
    };
    let expected: Vec<u8> = vec![
        3, 0, 0, 0, 0, 0, 0, 0, // three observations
        0, // none
        1, 8, 7, 6, 5, 4, 3, 2, 1, // a vote
        2, // faulty
        2, 0, 0, 0, // sender
        3, 0, 0, 0, 0, 0, 0, 0, // sequence number
        0x22, 0x11, 0, 0, 0, 0, 0, 0, // instant
        0, // no values
    ];
    assert_eq!(wvote.to_bytes(), expected);
}

#[test]
fn canonical_bytes_of_a_vote_with_values() {
    let wvote = WireVote {
        panorama: Panorama(vec![]),
        sender: ValidatorIndex(0x01020304),
        values: Some(vec![0xA, 0x0B0C]),
        seq_number: 0,
        instant: 0,
    };
    let expected: Vec<u8> = vec![
        0, 0, 0, 0, 0, 0, 0, 0, // no observations
        4, 3, 2, 1, // sender
        0, 0, 0, 0, 0, 0, 0, 0, // sequence number
        0, 0, 0, 0, 0, 0, 0, 0, // instant
        1, // values
        2, 0, 0, 0, 0, 0, 0, 0, // two of them
        0xA, 0, 0, 0, 0, 0, 0, 0, //
        0xC, 0xB, 0, 0, 0, 0, 0, 0,
    ];
    assert_eq!(wvote.to_bytes(), expected);
    let empty = WireVote {
        values: Some(vec![]),
        ..wvote.clone()
    };
    assert_ne!(empty.to_bytes(), wvote.to_bytes());
    assert_eq!(*empty.to_bytes().last().unwrap(), 0);
    assert_eq!(empty.to_bytes().len(), wvote.to_bytes().len() - 16);
}

#[test]
fn hash_depends_on_every_field_but_the_signature() {
    let base = WireVote {
        panorama: Panorama(vec![N, N]),
        sender: ValidatorIndex(0),
        values: None,
        seq_number: 0,
        instant: 0,
    };
    let hash = base.hash::<StdContext>();
    assert_eq!(hash, base.clone().hash::<StdContext>());
    let variants = vec![
        WireVote { panorama: Panorama(vec![N, F]), ..base.clone() },
        WireVote { panorama: Panorama(vec![N]), ..base.clone() },
        WireVote { sender: ValidatorIndex(1), ..base.clone() },
        WireVote { values: Some(vec![]), ..base.clone() },
        WireVote { seq_number: 1, ..base.clone() },
        WireVote { instant: 1, ..base.clone() },
    ];
    for variant in variants {
        assert_ne!(variant.hash::<StdContext>(), hash);
    }
    let signed = SignedWireVote { wire_vote: base.clone(), signature: 1 };
    let resigned = SignedWireVote { wire_vote: base, signature: 2 };
    assert_eq!(signed.hash::<StdContext>(), hash);
    assert_eq!(resigned.hash::<StdContext>(), hash);
    assert_eq!(signed.clone(), signed);
}

#[test]
fn with_error_returns_the_vote() {
    let swvote = SignedWireVote {
        wire_vote: WireVote {
            panorama: Panorama(vec![N]),
            sender: ValidatorIndex(0),
            values: None,
            seq_number: 4,
            instant: 0,
        },
        signature: 3,
    };
    let err = swvote.clone().with_error(VoteError::SequenceNumber);
    assert_eq!(err.wvote, swvote);
    assert_eq!(err.cause, VoteError::SequenceNumber);
    let err = swvote.clone().with_error(VoteError::Panorama);
    assert_eq!(err.cause, VoteError::Panorama);
}

#[test]
fn clone_u64s_copies() {
    assert_eq!(clone_u64s(&vec![3, 1, 2]), vec![3, 1, 2]);
    assert!(clone_u64s(&vec![]).is_empty());
}

fn sample_votes() -> Vec<WireVote> {
    vec![
        WireVote {
            panorama: Panorama(vec![]),
            sender: ValidatorIndex(0),
            values: None,
            seq_number: 0,
            instant: 0,
        },
        WireVote {
            panorama: Panorama(vec![N, Observation::Correct(u64::MAX), F, Observation::Correct(0)]),
            sender: ValidatorIndex(u32::MAX),
            values: Some(vec![]),
            seq_number: u64::MAX,
            instant: 77,
        },
        WireVote {
            panorama: Panorama(vec![F]),
            sender: ValidatorIndex(9),
            values: Some(vec![1, 2, u64::MAX]),
            seq_number: 5,
            instant: 1 << 40,
        },
    ]
}

#[test]
fn canonical_bytes_read_back() {
    for wvote in sample_votes() {
        let bytes = wvote.to_bytes();
        assert_eq!(WireVote::from_bytes(&bytes), Some(wvote));
    }
}

#[test]
fn other_bytes_do_not_read() {
    assert_eq!(WireVote::from_bytes(&[]), None);
    for wvote in sample_votes() {
        let bytes = wvote.to_bytes();
        // Cut short anywhere.
        for cut in 0..bytes.len() {
            assert_eq!(WireVote::from_bytes(&bytes[..cut]), None);
        }
        // With anything behind.
        let mut longer = bytes.clone();
        longer.push(0);
        assert_eq!(WireVote::from_bytes(&longer), None);
        // With an unknown tag for the values.
        let mut tagged = bytes.clone();
        let tag = match &wvote.values {
            None => bytes.len() - 1,
            Some(values) => bytes.len() - 9 - 8 * values.len(),
        };
        tagged[tag] = 2;
        assert_eq!(WireVote::from_bytes(&tagged), None);
    }
    // With an unknown tag for an observation.
    let mut bytes = sample_votes()[2].to_bytes();
    assert_eq!(bytes[8], 2);
    bytes[8] = 3;
    assert_eq!(WireVote::from_bytes(&bytes), None);
    // A count of observations that the bytes do not hold.
    let mut bytes = sample_votes()[0].to_bytes();
    bytes[7] = 0xff;
    assert_eq!(WireVote::from_bytes(&bytes), None);
}
