//! The messages that clients and replicas exchange, and the frame that
//! carries one over a byte stream: eight bytes of length, most significant
//! byte first, then that many bytes of payload.

use std::collections::HashMap;
use vstd::prelude::*;

verus! {

pub type ReplicaId = u64;

pub type Key = u64;

/// One line of a digest: the replica `replica_id` is known to hold its first
/// `keys` keys.
#[derive(Debug, Clone, Copy, PartialEq, Eq)]
pub struct DigestPair {
    pub replica_id: ReplicaId,
    pub keys: usize,
}

/// A key with its value.
#[derive(Debug, Clone, PartialEq, Eq)]
pub struct KVPair {
    pub key: u64,
    pub value: String,
}

/// A member of the cluster, written as `ip:port`.
#[derive(Debug, Clone, PartialEq, Eq)]
pub struct ClusterNode {
    pub replica_id: String,
}

/// The outcome of a lookup.
#[derive(Debug, Clone, PartialEq, Eq)]
pub enum FoundValue {
    Success { value: String },
    Failure,
}

/// The answer to a digest: for some replicas the keys that the asker lacks,
/// each with its position in that replica's list, and the values of those
/// keys. `sending_rate` is the bit pattern of the sender's gossip rate, a
/// sixty-four-bit float on the wire.
#[derive(Debug, Clone, PartialEq, Eq)]
pub struct UpdateMessage {
    pub sending_rate: u64,
    pub replica_keys: HashMap<ReplicaId, Vec<(Key, usize)>>,
    pub key_values: Vec<KVPair>,
}

#[derive(Debug, Clone, PartialEq, Eq)]
pub enum Message {
    RetrieveReq { key: u64 },
    RetrieveResp { result: FoundValue },
    PushReq(KVPair),
    PushResp { success: bool },
    DumpReq,
    DumpResp(Vec<KVPair>),
    DumpLenReq,
    DumpLenResp(usize),
    ClusterReq,
    ClusterResp(Vec<ClusterNode>),
    Error(String),
    ConnectionClosed,
    DigestMessage(ReplicaId, Vec<DigestPair>),
    UpdateMessage(ReplicaId, UpdateMessage),
}

impl View for KVPair {
    type V = (u64, Seq<char>);

    open spec fn view(&self) -> (u64, Seq<char>) {
        (self.key, self.value@)
    }
}

/// The eight bytes that stand for `n`, most significant first.
pub open spec fn be_bytes(n: u64) -> Seq<u8> {
    seq![
        ((n >> 56) & 0xff) as u8,
        ((n >> 48) & 0xff) as u8,
        ((n >> 40) & 0xff) as u8,
        ((n >> 32) & 0xff) as u8,
        ((n >> 24) & 0xff) as u8,
        ((n >> 16) & 0xff) as u8,
        ((n >> 8) & 0xff) as u8,
        (n & 0xff) as u8,
    ]
}

/// The number that eight bytes stand for, most significant first.
pub open spec fn be_value(b: Seq<u8>) -> u64 {
    ((b[0] as u64) << 56) | ((b[1] as u64) << 48) | ((b[2] as u64) << 40) | ((b[3] as u64) << 32)
        | ((b[4] as u64) << 24) | ((b[5] as u64) << 16) | ((b[6] as u64) << 8) | (b[7] as u64)
}

/// A payload in its frame.
pub open spec fn framed(payload: Seq<u8>) -> Seq<u8> {
    be_bytes(payload.len() as u64) + payload
}

/// What the first eight bytes of a frame announce.
#[derive(Debug, Clone, Copy, PartialEq, Eq)]
pub enum Announced {
    /// A length of zero: the peer has closed the stream.
    Closed,
    /// A payload of this many bytes follows.
    Payload(usize),
    /// The length does not fit the address space of this machine.
    TooLong,
}

pub open spec fn announced(prefix: Seq<u8>) -> Announced {
    let n = be_value(prefix);
    if n == 0 {
        Announced::Closed
    } else if n <= usize::MAX {
        Announced::Payload(n as usize)
    } else {
        Announced::TooLong
    }
}

fn low_byte(n: u64) -> (b: u8)
    ensures
        b == (n & 0xff) as u8,
{
    let m: u64 = n & 0xff;
    assert(m < 256) by (bit_vector)
        requires
            m == n & 0xff,
    ;
    m as u8
}

/// The length prefix of a payload of `len` bytes.
pub fn length_prefix(len: usize) -> (prefix: [u8; 8])
    ensures
        prefix@ == be_bytes(len as u64),
{
    let n: u64 = len as u64;
    let prefix: [u8; 8] = [
        low_byte(n >> 56),
        low_byte(n >> 48),
        low_byte(n >> 40),
        low_byte(n >> 32),
        low_byte(n >> 24),
        low_byte(n >> 16),
        low_byte(n >> 8),
        low_byte(n),
    ];
    assert(prefix@ =~= be_bytes(len as u64));
    prefix
}

/// The bytes to put on the stream for one message whose encoding is
/// `payload`.
pub fn frame(payload: &[u8]) -> (out: Vec<u8>)
    ensures
        out@ == framed(payload@),
{
    let prefix: [u8; 8] = length_prefix(payload.len());
    let mut out: Vec<u8> = Vec::new();
    let mut i: usize = 0;
    while i < 8
        invariant
            i <= 8,
            out@ == prefix@.subrange(0, i as int),
        decreases 8 - i,
    {
        out.push(prefix[i]);
        i = i + 1;
        assert(out@ =~= prefix@.subrange(0, i as int));
    }
    assert(out@ =~= prefix@);
    out.extend_from_slice(payload);
    assert(out@ =~= framed(payload@));
    out
}

/// Reads the length prefix of a frame. A stream that has ended yields eight
/// zero bytes, and so reads as closed.
pub fn read_prefix(prefix: &[u8; 8]) -> (a: Announced)
    ensures
        a == announced(prefix@),
{
    let n: u64 = ((prefix[0] as u64) << 56) | ((prefix[1] as u64) << 48) | ((prefix[2] as u64)
        << 40) | ((prefix[3] as u64) << 32) | ((prefix[4] as u64) << 24) | ((prefix[5] as u64)
        << 16) | ((prefix[6] as u64) << 8) | (prefix[7] as u64);
    if n == 0 {
        Announced::Closed
    } else if n <= usize::MAX as u64 {
        Announced::Payload(n as usize)
    } else {
        Announced::TooLong
    }
}

/// The prefix that was written for a length reads back as that length.
pub proof fn lemma_prefix_round_trip(len: usize)
    ensures
        be_value(be_bytes(len as u64)) == len,
        announced(be_bytes(len as u64)) == if len == 0 {
            Announced::Closed
        } else {
            Announced::Payload(len)
        },
{
    let n: u64 = len as u64;
    assert(((((n >> 56) & 0xff) as u8 as u64) << 56) | ((((n >> 48) & 0xff) as u8 as u64) << 48) | (
    (((n >> 40) & 0xff) as u8 as u64) << 40) | ((((n >> 32) & 0xff) as u8 as u64) << 32) | ((((n
        >> 24) & 0xff) as u8 as u64) << 24) | ((((n >> 16) & 0xff) as u8 as u64) << 16) | ((((n
        >> 8) & 0xff) as u8 as u64) << 8) | ((n & 0xff) as u8 as u64) == n) by (bit_vector);
}

} // verus!
