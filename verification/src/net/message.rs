//! The application message that rides in each payload, and the header that
//! precedes each batch on the wire.

use vstd::prelude::*;
use vstd::bytes::{
    spec_u32_from_le_bytes, spec_u32_to_le_bytes, spec_u64_from_le_bytes, spec_u64_to_le_bytes,
    u32_from_le_bytes, u32_to_le_bytes, u64_from_le_bytes, u64_to_le_bytes,
};
use vstd::slice::slice_to_vec;
use vstd::std_specs::hash::DefaultHasherAdditionalSpecFns;
use std::collections::hash_map::DefaultHasher;
use std::hash::Hasher;
use crate::clock::unix_time_ns;

verus! {

/// Bytes of a payload taken by timestamp, sequence and checksum.
pub const MESSAGE_PREFIX: usize = 20;

/// Greatest age, in nanoseconds, at which a message still counts as fresh.
pub const FRESHNESS_WINDOW_NS: u64 = 1_000_000_000;

/// A message as a value: what [`ProcessedMessage`] holds, with the payload
/// as a sequence.
#[verifier::ext_equal]
pub struct MessageView {
    /// Sender's wall clock, nanoseconds since the epoch.
    pub timestamp: u64,
    /// Position in the sender's stream.
    pub sequence: u64,
    /// Checksum carried with the message.
    pub checksum: u32,
    /// The opaque bytes after the prefix.
    pub payload: Seq<u8>,
}

/// The checksum of a message: the low 32 bits of the standard hasher's
/// result after it was fed the timestamp's eight little-endian bytes, the
/// sequence's eight little-endian bytes, and the payload, in three writes.
pub open spec fn spec_checksum(timestamp: u64, sequence: u64, payload: Seq<u8>) -> u32 {
    DefaultHasher::spec_finish(
        seq![spec_u64_to_le_bytes(timestamp), spec_u64_to_le_bytes(sequence), payload],
    ) as u32
}

impl MessageView {
    /// The message with these contents and the checksum that fits them.
    pub open spec fn sealed(timestamp: u64, sequence: u64, payload: Seq<u8>) -> MessageView {
        MessageView {
            timestamp,
            sequence,
            checksum: spec_checksum(timestamp, sequence, payload),
            payload,
        }
    }

    /// Whether the carried checksum is the one that fits the contents.
    pub open spec fn intact(self) -> bool {
        self.checksum == spec_checksum(self.timestamp, self.sequence, self.payload)
    }

    /// The bytes of the message on the wire.
    pub open spec fn encode(self) -> Seq<u8> {
        spec_u64_to_le_bytes(self.timestamp) + spec_u64_to_le_bytes(self.sequence)
            + spec_u32_to_le_bytes(self.checksum) + self.payload
    }

    /// The fields found in `bytes`, whatever the checksum; `bytes` must hold
    /// at least the prefix.
    pub open spec fn fields(bytes: Seq<u8>) -> MessageView {
        MessageView {
            timestamp: spec_u64_from_le_bytes(bytes.subrange(0, 8)),
            sequence: spec_u64_from_le_bytes(bytes.subrange(8, 16)),
            checksum: spec_u32_from_le_bytes(bytes.subrange(16, 20)),
            payload: bytes.skip(20),
        }
    }

    /// The message that `bytes` carry, if they are long enough and the
    /// checksum fits.
    pub open spec fn parse(bytes: Seq<u8>) -> Option<MessageView> {
        if bytes.len() < 20 {
            None
        } else if !Self::fields(bytes).intact() {
            None
        } else {
            Some(Self::fields(bytes))
        }
    }

    /// Whether a message stamped `timestamp` is fresh at `now_ns`: its age,
    /// taken with wrap-around at `2^64`, is within the window.
    pub open spec fn fresh_at(timestamp: u64, now_ns: u64) -> bool {
        now_ns.wrapping_sub(timestamp) <= FRESHNESS_WINDOW_NS
    }

    /// Whether a message stamped `timestamp` is fresh by a reading of the
    /// clock: by no reading it is stale.
    pub open spec fn fresh_by(timestamp: u64, reading: Option<u64>) -> bool {
        match reading {
            Some(now_ns) => Self::fresh_at(timestamp, now_ns),
            None => false,
        }
    }
}

/// The reduction over a payload: the sum of each byte times its index, both
/// cut to 32 bits, with wrap-around.
pub open spec fn spec_payload_sum(payload: Seq<u8>) -> u32
    decreases payload.len(),
{
    if payload.len() == 0 {
        0
    } else {
        spec_payload_sum(payload.drop_last()).wrapping_add(
            (payload.last() as u32).wrapping_mul((payload.len() - 1) as u32),
        )
    }
}

/// Computes the checksum of a message with these contents.
pub fn checksum_of(timestamp: u64, sequence: u64, payload: &[u8]) -> (c: u32)
    ensures
        c == spec_checksum(timestamp, sequence, payload@),
{
    let mut hasher = DefaultHasher::new();
    let stamp = u64_to_le_bytes(timestamp);
    hasher.write(stamp.as_slice());
    let number = u64_to_le_bytes(sequence);
    hasher.write(number.as_slice());
    hasher.write(payload);
    proof {
        assert(hasher@ =~= seq![
            spec_u64_to_le_bytes(timestamp),
            spec_u64_to_le_bytes(sequence),
            payload@,
        ]);
    }
    hasher.finish() as u32
}

/// Computes the reduction over a payload.
pub fn payload_sum(payload: &[u8]) -> (sum: u32)
    ensures
        sum == spec_payload_sum(payload@),
{
    let mut sum: u32 = 0;
    let mut i: usize = 0;
    while i < payload.len()
        invariant
            i <= payload@.len(),
            sum == spec_payload_sum(payload@.take(i as int)),
        decreases payload@.len() - i,
    {
        proof {
            assert(payload@.take(i + 1).drop_last() =~= payload@.take(i as int));
        }
        sum = sum.wrapping_add((payload[i] as u32).wrapping_mul(i as u32));
        i += 1;
    }
    proof {
        assert(payload@.take(i as int) =~= payload@);
    }
    sum
}

/// Calls `std::hint::black_box`, which hands its argument back unchanged and
/// asks the compiler not to drop the work that produced it.
#[verifier::external_body]
fn observed(value: u32) -> (r: u32)
    ensures
        r == value,
{
    std::hint::black_box(value)
}

/// A timestamped, sequenced, checksummed message.
pub struct ProcessedMessage {
    /// Sender's wall clock, nanoseconds since the epoch.
    pub timestamp: u64,
    /// Position in the sender's stream.
    pub sequence: u64,
    /// Checksum carried with the message.
    pub checksum: u32,
    /// The opaque bytes after the prefix.
    pub payload: Vec<u8>,
}

impl View for ProcessedMessage {
    type V = MessageView;

    open spec fn view(&self) -> MessageView {
        MessageView {
            timestamp: self.timestamp,
            sequence: self.sequence,
            checksum: self.checksum,
            payload: self.payload@,
        }
    }
}

impl ProcessedMessage {
    /// Makes a message with these contents and the checksum that fits them.
    pub fn new(timestamp: u64, sequence: u64, payload: Vec<u8>) -> (m: Self)
        ensures
            m@ == MessageView::sealed(timestamp, sequence, payload@),
            m@.intact(),
    {
        let checksum = checksum_of(timestamp, sequence, payload.as_slice());
        ProcessedMessage { timestamp, sequence, checksum, payload }
    }

    /// The bytes of the message on the wire.
    pub fn to_bytes(&self) -> (bytes: Vec<u8>)
        ensures
            bytes@ == self@.encode(),
    {
        let mut bytes = u64_to_le_bytes(self.timestamp);
        let mut number = u64_to_le_bytes(self.sequence);
        bytes.append(&mut number);
        let mut check = u32_to_le_bytes(self.checksum);
        bytes.append(&mut check);
        bytes.extend_from_slice(self.payload.as_slice());
        proof {
            assert(bytes@ =~= self@.encode());
        }
        bytes
    }

    /// Reads a message from `data`: `None` when `data` is shorter than the
    /// prefix or the checksum does not fit, else the message found.
    pub fn from_bytes(data: &[u8]) -> (r: Option<Self>)
        ensures
            match r {
                Some(m) => MessageView::parse(data@) == Some(m@),
                None => MessageView::parse(data@) is None,
            },
    {
        if data.len() < 20 {
            return None;
        }
        let timestamp = u64_from_le_bytes(&data[0..8]);
        let sequence = u64_from_le_bytes(&data[8..16]);
        let checksum = u32_from_le_bytes(&data[16..20]);
        let payload = &data[20..data.len()];
        proof {
            assert(payload@ =~= data@.skip(20));
        }
        let computed_hash = checksum_of(timestamp, sequence, payload);
        if computed_hash != checksum {
            return None;
        }
        Some(ProcessedMessage { timestamp, sequence, checksum, payload: slice_to_vec(payload) })
    }

    /// Whether the message is fresh at `now_ns`. The payload is reduced on
    /// the way, so that it is read in full.
    pub fn process_at(&self, now_ns: u64) -> (ok: bool)
        ensures
            ok == MessageView::fresh_at(self.timestamp, now_ns),
    {
        let age_nanos = now_ns.wrapping_sub(self.timestamp);
        if age_nanos > FRESHNESS_WINDOW_NS {
            return false;
        }
        let _sum = observed(payload_sum(self.payload.as_slice()));
        true
    }

    /// Whether the message is fresh by a reading of the clock. A clock that
    /// gave no reading makes every message stale.
    pub fn process_reading(&self, reading: Option<u64>) -> (ok: bool)
        ensures
            ok == MessageView::fresh_by(self.timestamp, reading),
    {
        match reading {
            Some(now_ns) => self.process_at(now_ns),
            None => false,
        }
    }

    /// Whether the message is fresh by the wall clock as it stands now: what
    /// [`Self::process_reading`] says of the reading taken at this call.
    pub fn process(&self) -> (ok: bool) {
        self.process_reading(unix_time_ns())
    }
}

/// Bytes of a batch header on the wire.
pub const HEADER_SIZE: usize = 8;

/// The header that precedes each batch: the size of one payload and the
/// number of payloads, both little-endian on the wire.
#[derive(Clone, Copy, Debug, PartialEq, Eq, Structural)]
pub struct MessageHeader {
    /// Bytes per payload in the batch.
    pub size: u32,
    /// Number of payloads in the batch.
    pub batch_size: u32,
}

impl MessageHeader {
    /// The bytes of the header on the wire.
    pub open spec fn encode(self) -> Seq<u8> {
        spec_u32_to_le_bytes(self.size) + spec_u32_to_le_bytes(self.batch_size)
    }

    /// The header that `bytes` carry, if they are exactly eight.
    pub open spec fn decode(bytes: Seq<u8>) -> Option<MessageHeader> {
        if bytes.len() == 8 {
            Some(
                MessageHeader {
                    size: spec_u32_from_le_bytes(bytes.subrange(0, 4)),
                    batch_size: spec_u32_from_le_bytes(bytes.subrange(4, 8)),
                },
            )
        } else {
            None
        }
    }

    /// Whether the header announces at least one payload of at least one
    /// byte.
    pub open spec fn valid(self) -> bool {
        self.size >= 1 && self.batch_size >= 1
    }

    /// Length of the body that follows the header.
    pub open spec fn body_len(self) -> nat {
        (self.size * self.batch_size) as nat
    }

    /// Bytes per payload in the batch.
    pub fn size(&self) -> (size: u32)
        ensures
            size == self.size,
    {
        self.size
    }

    /// Number of payloads in the batch.
    pub fn batch_size(&self) -> (batch_size: u32)
        ensures
            batch_size == self.batch_size,
    {
        self.batch_size
    }

    /// The bytes of the header on the wire.
    pub fn to_bytes(&self) -> (bytes: Vec<u8>)
        ensures
            bytes@ == self.encode(),
    {
        let mut bytes = u32_to_le_bytes(self.size);
        let mut count = u32_to_le_bytes(self.batch_size);
        bytes.append(&mut count);
        bytes
    }

    /// Reads a header from exactly eight bytes; `None` for any other length.
    pub fn from_bytes(bytes: &[u8]) -> (r: Option<Self>)
        ensures
            r == Self::decode(bytes@),
    {
        if bytes.len() != 8 {
            return None;
        }
        let size = u32_from_le_bytes(&bytes[0..4]);
        let batch_size = u32_from_le_bytes(&bytes[4..8]);
        Some(MessageHeader { size, batch_size })
    }

    /// Length of the body that follows the header: `None` when the header
    /// is not valid or the length does not fit in `usize`.
    pub fn total_size(&self) -> (r: Option<usize>)
        ensures
            r is Some <==> self.valid() && self.body_len() <= usize::MAX,
            r matches Some(n) ==> n == self.body_len(),
    {
        if self.size == 0 || self.batch_size == 0 {
            return None;
        }
        assert(self.size * self.batch_size <= u64::MAX) by (nonlinear_arith)
            requires
                self.size <= u32::MAX,
                self.batch_size <= u32::MAX,
        ;
        let total = (self.size as u64) * (self.batch_size as u64);
        if total > usize::MAX as u64 {
            return None;
        }
        Some(total as usize)
    }
}

} // verus!
