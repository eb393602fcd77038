//! Votes in their wire form, and their canonical bytes.

use vstd::prelude::*;
use vstd::bytes::{u32_to_le_bytes, u64_to_le_bytes};
use crate::state::{AddVoteError, VoteError};
use crate::traits::Context;
use crate::validators::ValidatorIndex;
use crate::vote::{Observation, Panorama};

verus! {

/// A dependency of a vote that the protocol state does not hold yet.
#[derive(Clone, Copy, Debug, PartialEq, Eq, Structural)]
pub enum Dependency {
    /// The vote with this hash.
    Vote(u64),
    /// Evidence against this validator.
    Evidence(ValidatorIndex),
}

/// The mathematical content of a [`WireVote`].
pub struct WireVoteView {
    pub panorama: Seq<Observation>,
    pub sender: ValidatorIndex,
    pub values: Option<Seq<u64>>,
    pub seq_number: u64,
    pub instant: u64,
}

/// The canonical bytes of one observation: a tag, then the hash if there is one.
pub open spec fn observation_bytes(obs: Observation) -> Seq<u8> {
    match obs {
        Observation::Absent => seq![0u8],
        Observation::Correct(hash) => seq![1u8] + vstd::bytes::spec_u64_to_le_bytes(hash),
        Observation::Faulty => seq![2u8],
    }
}

/// The canonical bytes of the observations of a panorama, in index order.
pub open spec fn panorama_bytes(pan: Seq<Observation>) -> Seq<u8>
    decreases pan.len(),
{
    if pan.len() == 0 {
        Seq::empty()
    } else {
        panorama_bytes(pan.drop_last()) + observation_bytes(pan.last())
    }
}

/// The canonical bytes of a list of consensus values, in order.
pub open spec fn values_bytes(values: Seq<u64>) -> Seq<u8>
    decreases values.len(),
{
    if values.len() == 0 {
        Seq::empty()
    } else {
        values_bytes(values.drop_last()) + vstd::bytes::spec_u64_to_le_bytes(values.last())
    }
}

impl WireVoteView {
    /// The canonical byte encoding: the panorama with its length in front,
    /// the sender, the sequence number, the instant, and the values behind
    /// a presence tag and their count.  All integers are little-endian.
    pub open spec fn bytes(self) -> Seq<u8> {
        vstd::bytes::spec_u64_to_le_bytes(self.panorama.len() as u64) + panorama_bytes(
            self.panorama,
        ) + vstd::bytes::spec_u32_to_le_bytes(self.sender.0) + vstd::bytes::spec_u64_to_le_bytes(
            self.seq_number,
        ) + vstd::bytes::spec_u64_to_le_bytes(self.instant) + match self.values {
            None => seq![0u8],
            Some(values) => seq![1u8] + vstd::bytes::spec_u64_to_le_bytes(values.len() as u64)
                + values_bytes(values),
        }
    }

    /// The identifier of the vote: the context's digest of its canonical bytes.
    pub open spec fn hash<C: Context>(self) -> u64 {
        C::spec_hash(self.bytes())
    }
}

/// A vote in the form in which it is sent to or received from the network.
#[derive(Debug, PartialEq, Eq)]
pub struct WireVote {
    /// The latest messages and faults observed by the sender.
    pub panorama: Panorama,
    /// The validator who created and sent this vote.
    pub sender: ValidatorIndex,
    /// The consensus values of the block this vote introduces, if it introduces one.
    pub values: Option<Vec<u64>>,
    /// The number of earlier messages by the same sender.
    pub seq_number: u64,
    /// This vote's instant, in milliseconds since the epoch.
    pub instant: u64,
}

impl View for WireVote {
    type V = WireVoteView;

    open spec fn view(&self) -> WireVoteView {
        WireVoteView {
            panorama: self.panorama@,
            sender: self.sender,
            values: match self.values {
                None => None,
                Some(values) => Some(values@),
            },
            seq_number: self.seq_number,
            instant: self.instant,
        }
    }
}

/// Copies a list of integers.
pub fn clone_u64s(v: &Vec<u64>) -> (r: Vec<u64>)
    ensures
        r@ == v@,
{
    let mut out: Vec<u64> = Vec::new();
    let mut i: usize = 0;
    while i < v.len()
        invariant
            i <= v.len(),
            out@ == v@.take(i as int),
        decreases v.len() - i,
    {
        out.push(v[i]);
        assert(v@.take(i + 1) == v@.take(i as int).push(v@[i as int]));
        i += 1;
    }
    assert(v@.take(v.len() as int) == v@);
    out
}

impl Clone for WireVote {
    fn clone(&self) -> (r: Self)
        ensures
            r@ == self@,
    {
        WireVote {
            panorama: self.panorama.clone(),
            sender: self.sender,
            values: match &self.values {
                None => None,
                Some(values) => Some(clone_u64s(values)),
            },
            seq_number: self.seq_number,
            instant: self.instant,
        }
    }
}

impl WireVote {
    /// Returns the canonical byte encoding of the vote.
    pub fn to_bytes(&self) -> (r: Vec<u8>)
        ensures
            r@ == self@.bytes(),
    {
        let mut out = u64_to_le_bytes(self.panorama.0.len() as u64);
        let ghost head = out@;
        let mut i: usize = 0;
        while i < self.panorama.0.len()
            invariant
                i <= self.panorama.0.len(),
                out@ == head + panorama_bytes(self.panorama@.take(i as int)),
            decreases self.panorama.0.len() - i,
        {
            let ghost before = out@;
            match self.panorama.0[i] {
                Observation::Absent => {
                    out.push(0u8);
                    assert(out@ == before + seq![0u8]);
                },
                Observation::Correct(hash) => {
                    out.push(1u8);
                    let mut bytes = u64_to_le_bytes(hash);
                    out.append(&mut bytes);
                    assert(out@ == before + (seq![1u8] + vstd::bytes::spec_u64_to_le_bytes(hash)));
                },
                Observation::Faulty => {
                    out.push(2u8);
                    assert(out@ == before + seq![2u8]);
                },
            }
            proof {
                let next = self.panorama@.take(i + 1);
                assert(next.drop_last() == self.panorama@.take(i as int));
                assert(next.last() == self.panorama@[i as int]);
                assert(out@ == head + panorama_bytes(next));
            }
            i += 1;
        }
        assert(self.panorama@.take(self.panorama.0.len() as int) == self.panorama@);
        let mut sender = u32_to_le_bytes(self.sender.0);
        out.append(&mut sender);
        let mut seq_number = u64_to_le_bytes(self.seq_number);
        out.append(&mut seq_number);
        let mut instant = u64_to_le_bytes(self.instant);
        out.append(&mut instant);
        let ghost fixed = out@;
        match &self.values {
            None => {
                out.push(0u8);
                assert(out@ == fixed + seq![0u8]);
            },
            Some(values) => {
                out.push(1u8);
                let mut count = u64_to_le_bytes(values.len() as u64);
                out.append(&mut count);
                let ghost tagged = out@;
                let mut j: usize = 0;
                while j < values.len()
                    invariant
                        j <= values.len(),
                        out@ == tagged + values_bytes(values@.take(j as int)),
                    decreases values.len() - j,
                {
                    let mut bytes = u64_to_le_bytes(values[j]);
                    out.append(&mut bytes);
                    proof {
                        let next = values@.take(j + 1);
                        assert(next.drop_last() == values@.take(j as int));
                        assert(next.last() == values@[j as int]);
                        assert(out@ == tagged + values_bytes(next));
                    }
                    j += 1;
                }
                assert(values@.take(values.len() as int) == values@);
                assert(out@ == fixed + (seq![1u8] + vstd::bytes::spec_u64_to_le_bytes(
                    values@.len() as u64,
                ) + values_bytes(values@)));
            },
        }
        out
    }

    /// Returns the vote's hash, which identifies the vote.
    pub fn hash<C: Context>(&self) -> (h: u64)
        ensures
            h == self@.hash::<C>(),
    {
        let bytes = self.to_bytes();
        C::hash(bytes.as_slice())
    }
}

/// The mathematical content of a [`SignedWireVote`].
pub struct SignedWireVoteView {
    pub wire_vote: WireVoteView,
    pub signature: u64,
}

/// A wire vote together with the signature the sender produced for it.
#[derive(Debug, PartialEq, Eq)]
pub struct SignedWireVote {
    pub wire_vote: WireVote,
    pub signature: u64,
}

impl View for SignedWireVote {
    type V = SignedWireVoteView;

    open spec fn view(&self) -> SignedWireVoteView {
        SignedWireVoteView { wire_vote: self.wire_vote@, signature: self.signature }
    }
}

impl Clone for SignedWireVote {
    fn clone(&self) -> (r: Self)
        ensures
            r@ == self@,
    {
        SignedWireVote { wire_vote: self.wire_vote.clone(), signature: self.signature }
    }
}

impl SignedWireVote {
    /// Wraps the vote in the error that rejects it for the given cause.
    pub fn with_error(self, cause: VoteError) -> (r: AddVoteError)
        ensures
            r.wvote == self,
            r.cause == cause,
    {
        AddVoteError { wvote: self, cause }
    }

    /// Returns the hash of the wire vote; the signature does not enter it.
    pub fn hash<C: Context>(&self) -> (h: u64)
        ensures
            h == self@.wire_vote.hash::<C>(),
    {
        self.wire_vote.hash::<C>()
    }
}

} // verus!
