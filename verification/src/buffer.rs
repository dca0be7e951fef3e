//! The byte ring: a fixed, power-of-two block of bytes addressed by two
//! ever-growing 64-bit positions, one for the producer and one for the
//! consumer.

use vstd::prelude::*;
use vstd::arithmetic::power2::is_pow2;
use crate::arith::{lemma_mask_is_mod, lemma_single_bit_is_pow2, lemma_slot_advance, wrap_once};
use crate::error::BrokerError;
use crate::RING_BUFFER_SIZE;

verus! {

/// What a ring is, seen from outside: its capacity, the two positions, and
/// the bytes written but not yet read, oldest first.
#[verifier::ext_equal]
pub struct RingState {
    /// Number of bytes the ring can hold.
    pub capacity: nat,
    /// Position one past the last byte written.
    pub producer: u64,
    /// Position of the next byte to read.
    pub consumer: u64,
    /// The unread bytes, in the order they were written.
    pub pending: Seq<u8>,
}

impl RingState {
    /// An empty ring of `capacity` bytes with both positions at `position`.
    pub open spec fn empty(capacity: nat, position: u64) -> RingState {
        RingState { capacity, producer: position, consumer: position, pending: Seq::empty() }
    }

    /// What holds of every ring: the capacity is a power of two from 4 up,
    /// the unread bytes fit in it, and the producer stands exactly that many bytes
    /// ahead of the consumer, counted with wrap-around at `2^64`.
    pub open spec fn inv(self) -> bool {
        &&& valid_capacity(self.capacity)
        &&& self.capacity <= usize::MAX
        &&& self.pending.len() <= self.capacity
        &&& self.producer == self.consumer.wrapping_add(self.pending.len() as u64)
        &&& self.producer.wrapping_sub(self.consumer) == self.pending.len()
    }

    /// The largest payload a single write may carry.
    pub open spec fn max_message(self) -> nat {
        self.capacity / 4
    }

    /// How a write of `len` bytes ends.
    pub open spec fn write_result(self, len: nat) -> Result<(), BrokerError> {
        if len > self.max_message() {
            Err(BrokerError::MessageTooLarge)
        } else if self.pending.len() + len > self.capacity {
            Err(BrokerError::BufferFull)
        } else {
            Ok(())
        }
    }

    /// The ring after `bytes` have been written.
    pub open spec fn write(self, bytes: Seq<u8>) -> RingState {
        RingState {
            capacity: self.capacity,
            producer: self.producer.wrapping_add(bytes.len() as u64),
            consumer: self.consumer,
            pending: self.pending + bytes,
        }
    }

    /// How many bytes a read into `room` bytes of space takes.
    pub open spec fn read_len(self, room: nat) -> nat {
        if room <= self.pending.len() {
            room
        } else {
            self.pending.len()
        }
    }

    /// The bytes that a read into `room` bytes of space hands over.
    pub open spec fn read_bytes(self, room: nat) -> Seq<u8> {
        self.pending.take(self.read_len(room) as int)
    }

    /// The ring after its `n` oldest unread bytes have been read.
    pub open spec fn read(self, n: nat) -> RingState {
        RingState {
            capacity: self.capacity,
            producer: self.producer,
            consumer: self.consumer.wrapping_add(n as u64),
            pending: self.pending.skip(n as int),
        }
    }
}

/// The capacities a ring can have: the powers of two from 4 up, so that a
/// quarter of the ring is at least one byte.
pub open spec fn valid_capacity(capacity: nat) -> bool {
    capacity >= 4 && is_pow2(capacity as int)
}

/// The `len` bytes of `mem` from slot `start` on, folding at the end.
spec fn ring_load(mem: Seq<u8>, start: int, len: nat) -> Seq<u8> {
    Seq::new(len, |k: int| mem[wrap_once(start + k, mem.len() as int)])
}

/// `mem` with `src` laid down from slot `start` on, folding at the end.
spec fn ring_store(mem: Seq<u8>, start: int, src: Seq<u8>) -> Seq<u8> {
    Seq::new(
        mem.len(),
        |s: int|
            {
                let k = if s >= start {
                    s - start
                } else {
                    s + mem.len() - start
                };
                if k < src.len() {
                    src[k]
                } else {
                    mem[s]
                }
            },
    )
}

/// Bytes stored behind the unread ones come out after them.
proof fn lemma_load_after_store(mem: Seq<u8>, r: int, fill: nat, src: Seq<u8>)
    requires
        0 <= r < mem.len(),
        fill + src.len() <= mem.len(),
    ensures
        ring_load(
            ring_store(mem, wrap_once(r + fill, mem.len() as int), src),
            r,
            fill + src.len(),
        ) =~= ring_load(mem, r, fill) + src,
{
}

/// Loading from further on yields the tail of the earlier load.
proof fn lemma_load_skip(mem: Seq<u8>, r: int, fill: nat, n: nat)
    requires
        0 <= r < mem.len(),
        n <= fill <= mem.len(),
    ensures
        ring_load(mem, wrap_once(r + n, mem.len() as int), (fill - n) as nat) =~= ring_load(
            mem,
            r,
            fill,
        ).skip(n as int),
{
}

/// Two writes in a row leave the ring as one write of both payloads does.
pub proof fn lemma_write_write(v: RingState, a: Seq<u8>, b: Seq<u8>)
    requires
        a.len() + b.len() <= u64::MAX,
    ensures
        v.write(a).write(b) == v.write(a + b),
{
    assert((v.pending + a) + b =~= v.pending + (a + b));
    assert(v.write(a).write(b) =~= v.write(a + b));
}

/// Two reads in a row leave the ring as one read of both lengths does.
pub proof fn lemma_read_read(v: RingState, m: nat, n: nat)
    requires
        m + n <= v.pending.len() <= u64::MAX,
    ensures
        v.read(m).read(n) == v.read(m + n),
{
    assert(v.pending.skip(m as int).skip(n as int) =~= v.pending.skip((m + n) as int));
    assert(v.read(m).read(n) =~= v.read(m + n));
}

/// A fixed-capacity byte ring for one producer and one consumer. Writing
/// and reading each take the ring exclusively, so a producer and a consumer
/// that share one ring take turns at it.
pub struct RingBuffer {
    data: Vec<u8>,
    mask: usize,
    producer_index: u64,
    consumer_index: u64,
}

/// Copies `src[from..from + len]` over `ring[at..at + len]`.
fn copy_in(ring: &mut Vec<u8>, at: usize, src: &[u8], from: usize, len: usize)
    requires
        at + len <= old(ring)@.len() <= usize::MAX,
        from + len <= src@.len() <= usize::MAX,
    ensures
        final(ring)@.len() == old(ring)@.len(),
        forall|i: int|
            0 <= i < old(ring)@.len() ==> #[trigger] final(ring)@[i] == if at <= i < at + len {
                src@[from + i - at]
            } else {
                old(ring)@[i]
            },
    no_unwind
{
    let mut i: usize = 0;
    while i < len
        invariant
            i <= len,
            at + len <= ring@.len() <= usize::MAX,
            from + len <= src@.len() <= usize::MAX,
            ring@.len() == old(ring)@.len(),
            forall|j: int|
                0 <= j < ring@.len() ==> #[trigger] ring@[j] == if at <= j < at + i {
                    src@[from + j - at]
                } else {
                    old(ring)@[j]
                },
        decreases len - i,
    {
        ring[at + i] = src[from + i];
        i += 1;
    }
}

/// Copies `ring[at..at + len]` over `dst[to..to + len]`.
fn copy_out(ring: &Vec<u8>, at: usize, dst: &mut [u8], to: usize, len: usize)
    requires
        at + len <= ring@.len(),
        to + len <= old(dst)@.len(),
    ensures
        final(dst)@.len() == old(dst)@.len(),
        forall|i: int|
            0 <= i < old(dst)@.len() ==> #[trigger] final(dst)@[i] == if to <= i < to + len {
                ring@[at + i - to]
            } else {
                old(dst)@[i]
            },
{
    let ring_len = ring.len();
    let dst_len = dst.len();
    let mut i: usize = 0;
    while i < len
        invariant
            i <= len,
            at + len <= ring_len == ring@.len(),
            to + len <= dst_len == dst@.len(),
            dst@.len() == old(dst)@.len(),
            forall|j: int|
                0 <= j < dst@.len() ==> #[trigger] dst@[j] == if to <= j < to + i {
                    ring@[at + j - to]
                } else {
                    old(dst)@[j]
                },
        decreases len - i,
    {
        dst[to + i] = ring[at + i];
        i += 1;
    }
}

impl View for RingBuffer {
    type V = RingState;

    closed spec fn view(&self) -> RingState {
        let n = self.data@.len();
        RingState {
            capacity: n,
            producer: self.producer_index,
            consumer: self.consumer_index,
            pending: ring_load(
                self.data@,
                self.consumer_index as int % n as int,
                self.producer_index.wrapping_sub(self.consumer_index) as nat,
            ),
        }
    }
}

impl RingBuffer {
    #[verifier::type_invariant]
    spec fn well_formed(&self) -> bool {
        &&& self.data@.len() == self.mask + 1 <= usize::MAX
        &&& valid_capacity(self.data@.len())
        &&& self.producer_index.wrapping_sub(self.consumer_index) <= self.data@.len()
    }

    /// Makes an empty ring of [`RING_BUFFER_SIZE`] bytes with both positions
    /// at zero. Fails only when the memory cannot be had.
    pub fn new() -> (r: Result<Self, BrokerError>)
        ensures
            match r {
                Ok(ring) => ring@ == RingState::empty(RING_BUFFER_SIZE as nat, 0) && ring@.inv(),
                Err(e) => e == BrokerError::SystemError,
            },
    {
        proof {
            assert(268435456u64 & 268435455u64 == 0) by (bit_vector);
            lemma_single_bit_is_pow2(268435456u64);
        }
        Self::with_capacity_from(RING_BUFFER_SIZE, 0)
    }

    /// Makes an empty ring of `capacity` bytes with both positions at zero.
    pub fn with_capacity(capacity: usize) -> (r: Result<Self, BrokerError>)
        ensures
            !valid_capacity(capacity as nat) ==> r == Err::<Self, BrokerError>(
                BrokerError::BufferTooSmall,
            ),
            match r {
                Ok(ring) => ring@ == RingState::empty(capacity as nat, 0) && ring@.inv(),
                Err(e) => e == BrokerError::SystemError || (e == BrokerError::BufferTooSmall
                    && !valid_capacity(capacity as nat)),
            },
    {
        Self::with_capacity_from(capacity, 0)
    }

    /// Makes an empty ring of `capacity` bytes with both positions at
    /// `position`. The capacity must be a power of two and at least 4;
    /// otherwise nothing is allocated and `BufferTooSmall` comes back.
    /// `SystemError` comes back only when the memory cannot be had.
    pub fn with_capacity_from(capacity: usize, position: u64) -> (r: Result<Self, BrokerError>)
        ensures
            !valid_capacity(capacity as nat) ==> r == Err::<Self, BrokerError>(
                BrokerError::BufferTooSmall,
            ),
            match r {
                Ok(ring) => ring@ == RingState::empty(capacity as nat, position) && ring@.inv(),
                Err(e) => e == BrokerError::SystemError || (e == BrokerError::BufferTooSmall
                    && !valid_capacity(capacity as nat)),
            },
    {
        let wide = capacity as u64;
        proof {
            lemma_single_bit_is_pow2(wide);
        }
        if capacity < 4 || wide & (wide - 1) != 0 {
            return Err(BrokerError::BufferTooSmall);
        }
        let mut data: Vec<u8> = Vec::new();
        if data.try_reserve(capacity).is_err() {
            return Err(BrokerError::SystemError);
        }
        data.resize(capacity, 0u8);
        let ring = RingBuffer {
            data,
            mask: capacity - 1,
            producer_index: position,
            consumer_index: position,
        };
        assert(ring@.pending =~= Seq::<u8>::empty());
        Ok(ring)
    }

    /// Number of bytes the ring can hold.
    pub fn capacity(&self) -> (n: usize)
        ensures
            n == self@.capacity,
            self@.inv(),
    {
        proof {
            use_type_invariant(self);
        }
        self.data.len()
    }

    /// Number of bytes written and not yet read.
    pub fn len(&self) -> (n: usize)
        ensures
            n == self@.pending.len(),
            self@.inv(),
    {
        proof {
            use_type_invariant(self);
        }
        self.producer_index.wrapping_sub(self.consumer_index) as usize
    }

    /// Whether every byte written has been read.
    pub fn is_empty(&self) -> (b: bool)
        ensures
            b == (self@.pending.len() == 0),
            self@.inv(),
    {
        proof {
            use_type_invariant(self);
        }
        self.producer_index == self.consumer_index
    }

    /// Position one past the last byte written.
    pub fn producer_index(&self) -> (p: u64)
        ensures
            p == self@.producer,
    {
        self.producer_index
    }

    /// Position of the next byte to read.
    pub fn consumer_index(&self) -> (c: u64)
        ensures
            c == self@.consumer,
    {
        self.consumer_index
    }

    /// Writes `data` behind the unread bytes, or reports why it cannot.
    pub fn try_write(&mut self, data: &[u8]) -> (r: Result<(), BrokerError>)
        ensures
            old(self)@.inv(),
            final(self)@.inv(),
            r == old(self)@.write_result(data@.len()),
            r is Ok ==> final(self)@ =~= old(self)@.write(data@),
            r is Err ==> final(self)@ == old(self)@,
    {
        proof {
            use_type_invariant(&*self);
        }
        let size = data.len();
        let capacity = self.data.len();
        if size > capacity / 4 {
            return Err(BrokerError::MessageTooLarge);
        }
        let producer_index = self.producer_index;
        let consumer_index = self.consumer_index;
        if producer_index.wrapping_sub(consumer_index) > capacity as u64 - size as u64 {
            return Err(BrokerError::BufferFull);
        }
        let write_index = (producer_index & (self.mask as u64)) as usize;
        let ghost fill = producer_index.wrapping_sub(consumer_index);
        let ghost slot = consumer_index as int % capacity as int;
        proof {
            lemma_mask_is_mod(producer_index, capacity as u64);
            lemma_slot_advance(consumer_index, fill, capacity as u64);
        }
        let first_part = capacity - write_index;
        if size <= first_part {
            copy_in(&mut self.data, write_index, data, 0, size);
        } else {
            copy_in(&mut self.data, write_index, data, 0, first_part);
            copy_in(&mut self.data, 0, data, first_part, size - first_part);
        }
        self.producer_index = producer_index.wrapping_add(size as u64);
        proof {
            assert(self.data@ =~= ring_store(old(self).data@, write_index as int, data@));
            lemma_load_after_store(old(self).data@, slot, fill as nat, data@);
        }
        Ok(())
    }

    /// Reads the oldest unread bytes into the front of `buf`, as many as fit,
    /// and returns their number; or reports that there are none.
    pub fn try_read(&mut self, buf: &mut [u8]) -> (r: Result<usize, BrokerError>)
        ensures
            old(self)@.inv(),
            final(self)@.inv(),
            final(buf)@.len() == old(buf)@.len(),
            old(self)@.pending.len() == 0 ==> r == Err::<usize, BrokerError>(
                BrokerError::BufferEmpty,
            ) && final(self)@ == old(self)@ && final(buf)@ == old(buf)@,
            old(self)@.pending.len() > 0 ==> {
                let n = old(self)@.read_len(old(buf)@.len());
                &&& r == Ok::<usize, BrokerError>(n as usize)
                &&& final(self)@ =~= old(self)@.read(n)
                &&& final(buf)@ =~= old(self)@.read_bytes(old(buf)@.len()) + old(buf)@.skip(
                    n as int,
                )
            },
    {
        proof {
            use_type_invariant(&*self);
        }
        let consumer_index = self.consumer_index;
        let producer_index = self.producer_index;
        if consumer_index == producer_index {
            return Err(BrokerError::BufferEmpty);
        }
        let capacity = self.data.len();
        let available = producer_index.wrapping_sub(consumer_index) as usize;
        let room = buf.len();
        let size = if room < available {
            room
        } else {
            available
        };
        let read_index = (consumer_index & (self.mask as u64)) as usize;
        let ghost slot = consumer_index as int % capacity as int;
        proof {
            lemma_mask_is_mod(consumer_index, capacity as u64);
            lemma_slot_advance(consumer_index, size as u64, capacity as u64);
        }
        let first_part = capacity - read_index;
        if size <= first_part {
            copy_out(&self.data, read_index, buf, 0, size);
        } else {
            copy_out(&self.data, read_index, buf, 0, first_part);
            copy_out(&self.data, 0, buf, first_part, size - first_part);
        }
        self.consumer_index = consumer_index.wrapping_add(size as u64);
        proof {
            lemma_load_skip(self.data@, slot, available as nat, size as nat);
        }
        Ok(size)
    }
}

} // verus!
