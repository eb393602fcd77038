//! Reading a wire vote back from its canonical bytes.
//!
//! The canonical encoding and the reader are inverse to one another: the
//! bytes of a wire vote read back to that vote, and only the bytes of a
//! wire vote read at all.

use vstd::prelude::*;
use vstd::bytes::{u32_from_le_bytes, u64_from_le_bytes};
use vstd::slice::slice_subrange;
use crate::validators::ValidatorIndex;
use crate::vertex::{WireVote, WireVoteView};
use crate::vote::{Observation, Panorama};

verus! {

/// The little-endian integer in the eight bytes from `pos` on, if there are that many.
pub open spec fn read_u64(bytes: Seq<u8>, pos: int) -> Option<u64> {
    if 0 <= pos && pos + 8 <= bytes.len() {
        Some(vstd::bytes::spec_u64_from_le_bytes(bytes.subrange(pos, pos + 8)))
    } else {
        None
    }
}

/// The little-endian integer in the four bytes from `pos` on, if there are that many.
pub open spec fn read_u32(bytes: Seq<u8>, pos: int) -> Option<u32> {
    if 0 <= pos && pos + 4 <= bytes.len() {
        Some(vstd::bytes::spec_u32_from_le_bytes(bytes.subrange(pos, pos + 4)))
    } else {
        None
    }
}

/// The observation encoded from `pos` on, with the position behind it.
pub open spec fn read_observation(bytes: Seq<u8>, pos: int) -> Option<(Observation, int)> {
    if 0 <= pos < bytes.len() {
        if bytes[pos] == 0 {
            Some((Observation::Absent, pos + 1))
        } else if bytes[pos] == 1 {
            match read_u64(bytes, pos + 1) {
                Some(hash) => Some((Observation::Correct(hash), pos + 9)),
                None => None,
            }
        } else if bytes[pos] == 2 {
            Some((Observation::Faulty, pos + 1))
        } else {
            None
        }
    } else {
        None
    }
}

/// The `n` observations encoded from `pos` on, with the position behind them.
pub open spec fn read_observations(bytes: Seq<u8>, pos: int, n: nat) -> Option<
    (Seq<Observation>, int),
>
    decreases n,
{
    if n == 0 {
        Some((Seq::empty(), pos))
    } else {
        match read_observations(bytes, pos, (n - 1) as nat) {
            Some((front, next)) => match read_observation(bytes, next) {
                Some((obs, end)) => Some((front.push(obs), end)),
                None => None,
            },
            None => None,
        }
    }
}

/// The `n` values encoded from `pos` on, with the position behind them.
pub open spec fn read_values(bytes: Seq<u8>, pos: int, n: nat) -> Option<(Seq<u64>, int)>
    decreases n,
{
    if n == 0 {
        Some((Seq::empty(), pos))
    } else {
        match read_values(bytes, pos, (n - 1) as nat) {
            Some((front, next)) => match read_u64(bytes, next) {
                Some(value) => Some((front.push(value), next + 8)),
                None => None,
            },
            None => None,
        }
    }
}

/// The values part encoded from `pos` on: a tag, and behind the tag 1 the
/// count and the values.  With the position behind it.
pub open spec fn read_values_part(bytes: Seq<u8>, pos: int) -> Option<(Option<Seq<u64>>, int)> {
    if 0 <= pos < bytes.len() {
        if bytes[pos] == 0 {
            Some((None, pos + 1))
        } else if bytes[pos] == 1 {
            match read_u64(bytes, pos + 1) {
                Some(count) => match read_values(bytes, pos + 9, count as nat) {
                    Some((values, end)) => Some((Some(values), end)),
                    None => None,
                },
                None => None,
            }
        } else {
            None
        }
    } else {
        None
    }
}

/// The wire vote that `bytes` encode, if they are the canonical bytes of one.
pub open spec fn read_wire_vote(bytes: Seq<u8>) -> Option<WireVoteView> {
    match read_u64(bytes, 0) {
        Some(len) => match read_observations(bytes, 8, len as nat) {
            Some((panorama, fixed)) => match (
                read_u32(bytes, fixed),
                read_u64(bytes, fixed + 4),
                read_u64(bytes, fixed + 12),
                read_values_part(bytes, fixed + 20),
            ) {
                (Some(sender), Some(seq_number), Some(instant), Some((values, end))) => if end
                    == bytes.len() {
                    Some(
                        WireVoteView {
                            panorama,
                            sender: ValidatorIndex(sender),
                            values,
                            seq_number,
                            instant,
                        },
                    )
                } else {
                    None
                },
                _ => None,
            },
            None => None,
        },
        None => None,
    }
}

/// Reads a little-endian integer of eight bytes at `pos`.
fn get_u64(bytes: &[u8], pos: usize) -> (r: Option<u64>)
    ensures
        r == read_u64(bytes@, pos as int),
{
    if pos <= bytes.len() && bytes.len() - pos >= 8 {
        Some(u64_from_le_bytes(slice_subrange(bytes, pos, pos + 8)))
    } else {
        None
    }
}

/// Reads a little-endian integer of four bytes at `pos`.
fn get_u32(bytes: &[u8], pos: usize) -> (r: Option<u32>)
    ensures
        r == read_u32(bytes@, pos as int),
{
    if pos <= bytes.len() && bytes.len() - pos >= 4 {
        Some(u32_from_le_bytes(slice_subrange(bytes, pos, pos + 4)))
    } else {
        None
    }
}

/// Reads an observation at `pos`.  Returns it with the position behind it.
fn get_observation(bytes: &[u8], pos: usize) -> (r: Option<(Observation, usize)>)
    ensures
        match r {
            Some((obs, end)) => read_observation(bytes@, pos as int) == Some((obs, end as int))
                && pos < end <= bytes@.len(),
            None => read_observation(bytes@, pos as int) is None,
        },
{
    if pos >= bytes.len() {
        return None;
    }
    let tag = bytes[pos];
    if tag == 0 {
        Some((Observation::Absent, pos + 1))
    } else if tag == 1 {
        match get_u64(bytes, pos + 1) {
            Some(hash) => Some((Observation::Correct(hash), pos + 9)),
            None => None,
        }
    } else if tag == 2 {
        Some((Observation::Faulty, pos + 1))
    } else {
        None
    }
}

impl WireVote {
    /// Reads a vote from its canonical byte encoding.  Returns `None` for
    /// bytes that are not the canonical encoding of a vote.
    pub fn from_bytes(bytes: &[u8]) -> (r: Option<WireVote>)
        ensures
            match r {
                Some(wvote) => read_wire_vote(bytes@) == Some(wvote@),
                None => read_wire_vote(bytes@) is None,
            },
    {
        let len = match get_u64(bytes, 0) {
            Some(len) => len,
            None => {
                return None;
            },
        };
        let total = bytes.len();
        let mut observations: Vec<Observation> = Vec::new();
        let mut pos: usize = 8;
        let mut i: u64 = 0;
        while i < len
            invariant
                i <= len,
                8 <= pos <= bytes@.len(),
                read_u64(bytes@, 0) == Some(len),
                read_observations(bytes@, 8, i as nat) == Some((observations@, pos as int)),
            decreases len - i,
        {
            match get_observation(bytes, pos) {
                Some((obs, end)) => {
                    observations.push(obs);
                    pos = end;
                },
                None => {
                    proof {
                        lemma_read_observations_fails(bytes@, 8, i as nat, len as nat);
                        assert(read_observations(bytes@, 8, len as nat) is None);
                    }
                    return None;
                },
            }
            i += 1;
        }
        let fixed = pos;
        assert(read_observations(bytes@, 8, len as nat) == Some((observations@, fixed as int)));
        let sender = match get_u32(bytes, fixed) {
            Some(sender) => sender,
            None => {
                return None;
            },
        };
        assert(fixed + 4 <= total);
        let seq_number = match get_u64(bytes, fixed + 4) {
            Some(seq_number) => seq_number,
            None => {
                return None;
            },
        };
        assert(fixed + 12 <= total);
        let instant = match get_u64(bytes, fixed + 12) {
            Some(instant) => instant,
            None => {
                return None;
            },
        };
        assert(fixed + 20 <= total);
        let tag_pos = fixed + 20;
        if tag_pos >= bytes.len() {
            return None;
        }
        let tag = bytes[tag_pos];
        let (values, end) = if tag == 0 {
            (None, tag_pos + 1)
        } else if tag == 1 {
            let count = match get_u64(bytes, tag_pos + 1) {
                Some(count) => count,
                None => {
                    return None;
                },
            };
            assert(tag_pos + 9 <= total);
            let mut values: Vec<u64> = Vec::new();
            let mut at: usize = tag_pos + 9;
            let mut k: u64 = 0;
            while k < count
                invariant
                    k <= count,
                    tag_pos + 9 <= at <= bytes@.len() == total,
                    tag_pos == fixed + 20,
                    read_u64(bytes@, 0) == Some(len),
                    read_observations(bytes@, 8, len as nat) == Some(
                        (observations@, fixed as int),
                    ),
                    bytes@[tag_pos as int] == 1,
                    read_u64(bytes@, tag_pos + 1) == Some(count),
                    read_values(bytes@, tag_pos + 9, k as nat) == Some((values@, at as int)),
                decreases count - k,
            {
                match get_u64(bytes, at) {
                    Some(value) => {
                        assert(at + 8 <= total);
                        values.push(value);
                        at = at + 8;
                    },
                    None => {
                        proof {
                            lemma_read_values_fails(bytes@, tag_pos + 9, k as nat, count as nat);
                            assert(read_values(bytes@, tag_pos + 9, count as nat) is None);
                        }
                        return None;
                    },
                }
                k += 1;
            }
            (Some(values), at)
        } else {
            return None;
        };
        if end != bytes.len() {
            return None;
        }
        Some(
            WireVote {
                panorama: Panorama(observations),
                sender: ValidatorIndex(sender),
                values,
                seq_number,
                instant,
            },
        )
    }
}

/// Where fewer observations cannot be read, more cannot be read either.
pub proof fn lemma_read_observations_fails(bytes: Seq<u8>, pos: int, few: nat, many: nat)
    requires
        few < many,
        read_observations(bytes, pos, few) matches Some((front, next)) ==> read_observation(
            bytes,
            next,
        ) is None,
    ensures
        read_observations(bytes, pos, many) is None,
    decreases many,
{
    if many > few + 1 {
        lemma_read_observations_fails(bytes, pos, few, (many - 1) as nat);
    }
}

/// Where fewer values cannot be read, more cannot be read either.
pub proof fn lemma_read_values_fails(bytes: Seq<u8>, pos: int, few: nat, many: nat)
    requires
        few < many,
        read_values(bytes, pos, few) matches Some((front, next)) ==> read_u64(bytes, next) is None,
    ensures
        read_values(bytes, pos, many) is None,
    decreases many,
{
    if many > few + 1 {
        lemma_read_values_fails(bytes, pos, few, (many - 1) as nat);
    }
}

/// An integer reads back from where its bytes stand.
pub proof fn lemma_read_u64_back(bytes: Seq<u8>, pos: int, value: u64)
    requires
        0 <= pos,
        pos + 8 <= bytes.len(),
        bytes.subrange(pos, pos + 8) == vstd::bytes::spec_u64_to_le_bytes(value),
    ensures
        read_u64(bytes, pos) == Some(value),
{
    vstd::bytes::lemma_auto_spec_u64_to_from_le_bytes();
}

/// An integer reads back from where its bytes stand.
pub proof fn lemma_read_u32_back(bytes: Seq<u8>, pos: int, value: u32)
    requires
        0 <= pos,
        pos + 4 <= bytes.len(),
        bytes.subrange(pos, pos + 4) == vstd::bytes::spec_u32_to_le_bytes(value),
    ensures
        read_u32(bytes, pos) == Some(value),
{
    vstd::bytes::lemma_auto_spec_u32_to_from_le_bytes();
    assert(vstd::bytes::spec_u32_to_le_bytes(value).len() == 4);
}

/// The bytes that an integer was read from are the integer's bytes.
pub proof fn lemma_read_u64_bytes(bytes: Seq<u8>, pos: int)
    requires
        read_u64(bytes, pos) is Some,
    ensures
        bytes.subrange(pos, pos + 8) == vstd::bytes::spec_u64_to_le_bytes(
            read_u64(bytes, pos)->Some_0,
        ),
{
    vstd::bytes::lemma_auto_spec_u64_to_from_le_bytes();
    assert(bytes.subrange(pos, pos + 8).len() == 8);
}

/// The bytes that an integer was read from are the integer's bytes.
pub proof fn lemma_read_u32_bytes(bytes: Seq<u8>, pos: int)
    requires
        read_u32(bytes, pos) is Some,
    ensures
        bytes.subrange(pos, pos + 4) == vstd::bytes::spec_u32_to_le_bytes(
            read_u32(bytes, pos)->Some_0,
        ),
{
    vstd::bytes::lemma_auto_spec_u32_to_from_le_bytes();
    assert(bytes.subrange(pos, pos + 4).len() == 4);
}

/// The bytes that an observation was read from are the observation's bytes.
pub proof fn lemma_read_observation_bytes(bytes: Seq<u8>, pos: int)
    requires
        read_observation(bytes, pos) is Some,
    ensures
        ({
            let (obs, end) = read_observation(bytes, pos)->Some_0;
            &&& pos < end <= bytes.len()
            &&& bytes.subrange(pos, end) == crate::vertex::observation_bytes(obs)
        }),
{
    let (obs, end) = read_observation(bytes, pos)->Some_0;
    if bytes[pos] == 1 {
        lemma_read_u64_bytes(bytes, pos + 1);
        assert(bytes.subrange(pos, end) =~= seq![1u8] + bytes.subrange(pos + 1, pos + 9));
    } else {
        assert(bytes.subrange(pos, end) =~= seq![bytes[pos]]);
    }
}

/// An observation reads back from where its bytes stand.
pub proof fn lemma_read_observation_back(bytes: Seq<u8>, pos: int, obs: Observation)
    requires
        0 <= pos,
        pos + crate::vertex::observation_bytes(obs).len() <= bytes.len(),
        bytes.subrange(pos, pos + crate::vertex::observation_bytes(obs).len())
            == crate::vertex::observation_bytes(obs),
    ensures
        read_observation(bytes, pos) == Some(
            (obs, pos + crate::vertex::observation_bytes(obs).len()),
        ),
{
    vstd::bytes::lemma_auto_spec_u64_to_from_le_bytes();
    let encoded = crate::vertex::observation_bytes(obs);
    assert(bytes[pos] == bytes.subrange(pos, pos + encoded.len())[0]);
    if let Observation::Correct(hash) = obs {
        assert(encoded.len() == 9);
        assert(bytes.subrange(pos + 1, pos + 9) =~= encoded.subrange(1, 9));
        assert(encoded.subrange(1, 9) =~= vstd::bytes::spec_u64_to_le_bytes(hash));
        lemma_read_u64_back(bytes, pos + 1, hash);
    }
}

/// The bytes that observations were read from are the observations' bytes.
pub proof fn lemma_read_observations_bytes(bytes: Seq<u8>, pos: int, n: nat)
    requires
        0 <= pos <= bytes.len(),
        read_observations(bytes, pos, n) is Some,
    ensures
        ({
            let (observations, end) = read_observations(bytes, pos, n)->Some_0;
            &&& observations.len() == n
            &&& pos <= end <= bytes.len()
            &&& bytes.subrange(pos, end) == crate::vertex::panorama_bytes(observations)
        }),
    decreases n,
{
    let (observations, end) = read_observations(bytes, pos, n)->Some_0;
    if n == 0 {
        assert(bytes.subrange(pos, end) =~= Seq::<u8>::empty());
    } else {
        lemma_read_observations_bytes(bytes, pos, (n - 1) as nat);
        let (front, next) = read_observations(bytes, pos, (n - 1) as nat)->Some_0;
        lemma_read_observation_bytes(bytes, next);
        assert(observations.drop_last() =~= front);
        assert(bytes.subrange(pos, end) =~= bytes.subrange(pos, next) + bytes.subrange(next, end));
    }
}

/// Observations read back from where their bytes stand.
pub proof fn lemma_read_observations_back(bytes: Seq<u8>, pos: int, observations: Seq<Observation>)
    requires
        0 <= pos,
        pos + crate::vertex::panorama_bytes(observations).len() <= bytes.len(),
        bytes.subrange(pos, pos + crate::vertex::panorama_bytes(observations).len())
            == crate::vertex::panorama_bytes(observations),
    ensures
        read_observations(bytes, pos, observations.len()) == Some(
            (observations, pos + crate::vertex::panorama_bytes(observations).len()),
        ),
    decreases observations.len(),
{
    if observations.len() > 0 {
        let front = observations.drop_last();
        let last = observations.last();
        let encoded = crate::vertex::panorama_bytes(observations);
        let next: int = pos + crate::vertex::panorama_bytes(front).len() as int;
        assert(bytes.subrange(pos, next) =~= encoded.subrange(
            0,
            crate::vertex::panorama_bytes(front).len() as int,
        ));
        assert(encoded.subrange(0, crate::vertex::panorama_bytes(front).len() as int)
            =~= crate::vertex::panorama_bytes(front));
        lemma_read_observations_back(bytes, pos, front);
        assert(bytes.subrange(next, next + crate::vertex::observation_bytes(last).len())
            =~= encoded.subrange(
            crate::vertex::panorama_bytes(front).len() as int,
            encoded.len() as int,
        ));
        assert(encoded.subrange(
            crate::vertex::panorama_bytes(front).len() as int,
            encoded.len() as int,
        ) =~= crate::vertex::observation_bytes(last));
        lemma_read_observation_back(bytes, next, last);
        assert(front.push(last) =~= observations);
    }
}

/// The bytes that values were read from are the values' bytes.
pub proof fn lemma_read_values_bytes(bytes: Seq<u8>, pos: int, n: nat)
    requires
        0 <= pos <= bytes.len(),
        read_values(bytes, pos, n) is Some,
    ensures
        ({
            let (values, end) = read_values(bytes, pos, n)->Some_0;
            &&& values.len() == n
            &&& pos <= end <= bytes.len()
            &&& bytes.subrange(pos, end) == crate::vertex::values_bytes(values)
        }),
    decreases n,
{
    let (values, end) = read_values(bytes, pos, n)->Some_0;
    if n == 0 {
        assert(bytes.subrange(pos, end) =~= Seq::<u8>::empty());
    } else {
        lemma_read_values_bytes(bytes, pos, (n - 1) as nat);
        let (front, next) = read_values(bytes, pos, (n - 1) as nat)->Some_0;
        lemma_read_u64_bytes(bytes, next);
        assert(values.drop_last() =~= front);
        assert(bytes.subrange(pos, end) =~= bytes.subrange(pos, next) + bytes.subrange(next, end));
    }
}

/// Values read back from where their bytes stand.
pub proof fn lemma_read_values_back(bytes: Seq<u8>, pos: int, values: Seq<u64>)
    requires
        0 <= pos,
        pos + crate::vertex::values_bytes(values).len() <= bytes.len(),
        bytes.subrange(pos, pos + crate::vertex::values_bytes(values).len())
            == crate::vertex::values_bytes(values),
    ensures
        read_values(bytes, pos, values.len()) == Some(
            (values, pos + crate::vertex::values_bytes(values).len()),
        ),
    decreases values.len(),
{
    vstd::bytes::lemma_auto_spec_u64_to_from_le_bytes();
    if values.len() > 0 {
        let front = values.drop_last();
        let last = values.last();
        let encoded = crate::vertex::values_bytes(values);
        let next: int = pos + crate::vertex::values_bytes(front).len() as int;
        assert(bytes.subrange(pos, next) =~= encoded.subrange(
            0,
            crate::vertex::values_bytes(front).len() as int,
        ));
        assert(encoded.subrange(0, crate::vertex::values_bytes(front).len() as int)
            =~= crate::vertex::values_bytes(front));
        lemma_read_values_back(bytes, pos, front);
        assert(bytes.subrange(next, next + 8) =~= encoded.subrange(
            crate::vertex::values_bytes(front).len() as int,
            encoded.len() as int,
        ));
        assert(encoded.subrange(
            crate::vertex::values_bytes(front).len() as int,
            encoded.len() as int,
        ) =~= vstd::bytes::spec_u64_to_le_bytes(last));
        lemma_read_u64_back(bytes, next, last);
        assert(front.push(last) =~= values);
    }
}

/// The values part of a wire vote: the tag, and behind the tag 1 the count
/// and the values.
pub open spec fn values_part_bytes(values: Option<Seq<u64>>) -> Seq<u8> {
    match values {
        None => seq![0u8],
        Some(values) => seq![1u8] + vstd::bytes::spec_u64_to_le_bytes(values.len() as u64)
            + crate::vertex::values_bytes(values),
    }
}

/// The canonical bytes of a wire vote read back to that vote.
pub proof fn law_read_back(wvote: WireVoteView)
    requires
        wvote.panorama.len() <= u64::MAX,
        wvote.values matches Some(values) ==> values.len() <= u64::MAX,
    ensures
        read_wire_vote(wvote.bytes()) == Some(wvote),
{
    vstd::bytes::lemma_auto_spec_u64_to_from_le_bytes();
    vstd::bytes::lemma_auto_spec_u32_to_from_le_bytes();
    let bytes = wvote.bytes();
    let len_bytes = vstd::bytes::spec_u64_to_le_bytes(wvote.panorama.len() as u64);
    let pan_bytes = crate::vertex::panorama_bytes(wvote.panorama);
    let sender_bytes = vstd::bytes::spec_u32_to_le_bytes(wvote.sender.0);
    let seq_bytes = vstd::bytes::spec_u64_to_le_bytes(wvote.seq_number);
    let instant_bytes = vstd::bytes::spec_u64_to_le_bytes(wvote.instant);
    let values_bytes = values_part_bytes(wvote.values);
    assert(bytes =~= len_bytes + pan_bytes + sender_bytes + seq_bytes + instant_bytes
        + values_bytes);
    let fixed: int = 8 + pan_bytes.len() as int;
    assert(bytes.subrange(0, 8) =~= len_bytes);
    lemma_read_u64_back(bytes, 0, wvote.panorama.len() as u64);
    assert(bytes.subrange(8, fixed) =~= pan_bytes);
    lemma_read_observations_back(bytes, 8, wvote.panorama);
    assert(bytes.subrange(fixed, fixed + 4) =~= sender_bytes);
    lemma_read_u32_back(bytes, fixed, wvote.sender.0);
    assert(bytes.subrange(fixed + 4, fixed + 12) =~= seq_bytes);
    lemma_read_u64_back(bytes, fixed + 4, wvote.seq_number);
    assert(bytes.subrange(fixed + 12, fixed + 20) =~= instant_bytes);
    lemma_read_u64_back(bytes, fixed + 12, wvote.instant);
    assert(bytes[fixed + 20] == values_bytes[0]);
    if let Some(values) = wvote.values {
        let count_bytes = vstd::bytes::spec_u64_to_le_bytes(values.len() as u64);
        let listed = crate::vertex::values_bytes(values);
        assert(bytes.subrange(fixed + 21, fixed + 29) =~= count_bytes);
        lemma_read_u64_back(bytes, fixed + 21, values.len() as u64);
        assert(bytes.subrange(fixed + 29, fixed + 29 + listed.len()) =~= listed);
        lemma_read_values_back(bytes, fixed + 29, values);
    }
}

/// Only the canonical bytes of a wire vote read as that vote.
pub proof fn law_read_only_canonical(bytes: Seq<u8>)
    requires
        read_wire_vote(bytes) is Some,
    ensures
        read_wire_vote(bytes)->Some_0.bytes() == bytes,
        read_wire_vote(bytes)->Some_0.panorama.len() <= u64::MAX,
        read_wire_vote(bytes)->Some_0.values matches Some(values) ==> values.len() <= u64::MAX,
{
    let wvote = read_wire_vote(bytes)->Some_0;
    let len = read_u64(bytes, 0)->Some_0;
    lemma_read_u64_bytes(bytes, 0);
    lemma_read_observations_bytes(bytes, 8, len as nat);
    let (panorama, fixed) = read_observations(bytes, 8, len as nat)->Some_0;
    lemma_read_u32_bytes(bytes, fixed);
    lemma_read_u64_bytes(bytes, fixed + 4);
    lemma_read_u64_bytes(bytes, fixed + 12);
    let (values, end) = read_values_part(bytes, fixed + 20)->Some_0;
    if bytes[fixed + 20] == 1 {
        let count = read_u64(bytes, fixed + 21)->Some_0;
        lemma_read_u64_bytes(bytes, fixed + 21);
        lemma_read_values_bytes(bytes, fixed + 29, count as nat);
        assert(bytes.subrange(fixed + 20, end) =~= seq![1u8] + bytes.subrange(
            fixed + 21,
            fixed + 29,
        ) + bytes.subrange(fixed + 29, end));
    } else {
        assert(bytes.subrange(fixed + 20, end) =~= seq![0u8]);
    }
    assert(bytes.subrange(fixed + 20, end) == values_part_bytes(values));
    assert(bytes =~= bytes.subrange(0, 8) + bytes.subrange(8, fixed) + bytes.subrange(
        fixed,
        fixed + 4,
    ) + bytes.subrange(fixed + 4, fixed + 12) + bytes.subrange(fixed + 12, fixed + 20)
        + bytes.subrange(fixed + 20, end));
}

} // verus!
