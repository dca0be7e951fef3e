//! What follows from the ring's model: the invariant is kept by every
//! operation, and bytes come out as they went in.

use vstd::prelude::*;
use crate::buffer::{valid_capacity, RingState};
use crate::error::BrokerError;

verus! {

/// A fresh ring of a valid capacity satisfies the invariant, wherever its
/// positions start.
pub proof fn lemma_empty_inv(capacity: nat, position: u64)
    requires
        valid_capacity(capacity),
        capacity <= usize::MAX,
    ensures
        RingState::empty(capacity, position).inv(),
{
}

/// A write that is accepted keeps the invariant: the consumer stays behind
/// the producer, by no more than the capacity.
pub proof fn lemma_write_keeps_inv(v: RingState, bytes: Seq<u8>)
    requires
        v.inv(),
        v.write_result(bytes.len()) is Ok,
    ensures
        v.write(bytes).inv(),
        v.write(bytes).producer.wrapping_sub(v.write(bytes).consumer) <= v.capacity,
{
}

/// A read of no more than the unread bytes keeps the invariant.
pub proof fn lemma_read_keeps_inv(v: RingState, n: nat)
    requires
        v.inv(),
        n <= v.pending.len(),
    ensures
        v.read(n).inv(),
        v.read(n).producer.wrapping_sub(v.read(n).consumer) <= v.capacity,
{
}

/// A payload larger than a quarter of the ring is refused as too large,
/// however empty the ring is.
pub proof fn lemma_oversize_refused(v: RingState, len: nat)
    requires
        len > v.capacity / 4,
    ensures
        v.write_result(len) == Err::<(), BrokerError>(BrokerError::MessageTooLarge),
{
}

/// An empty ring takes a payload of exactly a quarter of its capacity.
pub proof fn lemma_quarter_fits_empty(v: RingState)
    requires
        v.inv(),
        v.pending.len() == 0,
    ensures
        v.write_result(v.max_message()) is Ok,
{
}

/// A write that fills the ring to the last byte is accepted, and after it
/// even one more byte is refused because the ring is full.
pub proof fn lemma_fill_to_capacity(v: RingState, bytes: Seq<u8>)
    requires
        v.inv(),
        bytes.len() <= v.max_message(),
        v.pending.len() + bytes.len() == v.capacity,
    ensures
        v.write_result(bytes.len()) is Ok,
        v.write(bytes).producer.wrapping_sub(v.consumer) == v.capacity,
        v.write(bytes).write_result(1) == Err::<(), BrokerError>(BrokerError::BufferFull),
{
}

/// Written to an empty ring and read back with room for all of it, a
/// payload comes out whole and leaves the ring empty again.
pub proof fn lemma_write_then_read(v: RingState, bytes: Seq<u8>)
    requires
        v.inv(),
        v.pending.len() == 0,
        0 < bytes.len() <= v.max_message(),
    ensures
        v.write_result(bytes.len()) is Ok,
        v.write(bytes).pending.len() > 0,
        v.write(bytes).read_len(bytes.len()) == bytes.len(),
        v.write(bytes).read_bytes(bytes.len()) == bytes,
        v.write(bytes).read(bytes.len()).inv(),
        v.write(bytes).read(bytes.len()).pending.len() == 0,
{
    assert(v.write(bytes).pending =~= bytes);
    assert(bytes.take(bytes.len() as int) =~= bytes);
}

/// The ring after each payload of `msgs` in turn was written and at once
/// read back with room for exactly that payload.
pub open spec fn after_pairs(v: RingState, msgs: Seq<Seq<u8>>) -> RingState
    decreases msgs.len(),
{
    if msgs.len() == 0 {
        v
    } else {
        after_pairs(v, msgs.drop_last()).write(msgs.last()).read(msgs.last().len())
    }
}

/// Every payload in `msgs` is non-empty and no larger than `limit`.
pub open spec fn payloads_within(msgs: Seq<Seq<u8>>, limit: nat) -> bool {
    forall|i: int| 0 <= i < msgs.len() ==> 0 < (#[trigger] msgs[i]).len() <= limit
}

/// Alternating writes and reads on a ring that starts empty: each write is
/// accepted, each read returns exactly the payload just written, and the
/// ring is empty again after every pair.
pub proof fn lemma_pairs_round_trip(v: RingState, msgs: Seq<Seq<u8>>)
    requires
        v.inv(),
        v.pending.len() == 0,
        payloads_within(msgs, v.max_message()),
    ensures
        after_pairs(v, msgs).inv(),
        after_pairs(v, msgs).pending.len() == 0,
        after_pairs(v, msgs).capacity == v.capacity,
        forall|i: int|
            #![trigger msgs[i]]
            0 <= i < msgs.len() ==> {
                let before = after_pairs(v, msgs.take(i));
                &&& before.write_result(msgs[i].len()) is Ok
                &&& before.write(msgs[i]).pending.len() > 0
                &&& before.write(msgs[i]).read_len(msgs[i].len()) == msgs[i].len()
                &&& before.write(msgs[i]).read_bytes(msgs[i].len()) == msgs[i]
            },
    decreases msgs.len(),
{
    if msgs.len() > 0 {
        let head = msgs.drop_last();
        lemma_pairs_round_trip(v, head);
        let before = after_pairs(v, head);
        lemma_write_then_read(before, msgs.last());
        assert forall|i: int| #![trigger msgs[i]] 0 <= i < msgs.len() implies {
            let b = after_pairs(v, msgs.take(i));
            &&& b.write_result(msgs[i].len()) is Ok
            &&& b.write(msgs[i]).pending.len() > 0
            &&& b.write(msgs[i]).read_len(msgs[i].len()) == msgs[i].len()
            &&& b.write(msgs[i]).read_bytes(msgs[i].len()) == msgs[i]
        } by {
            if i < head.len() {
                assert(head.take(i) =~= msgs.take(i));
                assert(head[i] == msgs[i]);
            } else {
                assert(msgs.take(i) =~= head);
            }
        }
    }
}

/// The ring after every payload of `msgs` was written, first to last.
pub open spec fn after_writes(v: RingState, msgs: Seq<Seq<u8>>) -> RingState
    decreases msgs.len(),
{
    if msgs.len() == 0 {
        v
    } else {
        after_writes(v, msgs.drop_last()).write(msgs.last())
    }
}

/// Every write of the batch `msgs` is accepted when its turn comes.
pub open spec fn writes_accepted(v: RingState, msgs: Seq<Seq<u8>>) -> bool
    decreases msgs.len(),
{
    msgs.len() > 0 ==> {
        &&& writes_accepted(v, msgs.drop_last())
        &&& after_writes(v, msgs.drop_last()).write_result(msgs.last().len()) is Ok
    }
}

/// The ring after `count` reads, each into `room` bytes of space.
pub open spec fn after_reads(v: RingState, count: nat, room: nat) -> RingState
    decreases count,
{
    if count == 0 {
        v
    } else {
        let before = after_reads(v, (count - 1) as nat, room);
        before.read(before.read_len(room))
    }
}

/// Every payload in `msgs` has exactly `size` bytes.
pub open spec fn payloads_of_size(msgs: Seq<Seq<u8>>, size: nat) -> bool {
    forall|i: int| 0 <= i < msgs.len() ==> (#[trigger] msgs[i]).len() == size
}

/// Writes append: after a batch, the unread bytes are the old ones followed
/// by the payloads in order. Accepted writes keep the invariant.
pub proof fn lemma_writes_append(v: RingState, msgs: Seq<Seq<u8>>)
    requires
        v.inv(),
        writes_accepted(v, msgs),
    ensures
        after_writes(v, msgs).inv(),
        after_writes(v, msgs).capacity == v.capacity,
        after_writes(v, msgs).consumer == v.consumer,
        after_writes(v, msgs).pending == v.pending + msgs.flatten(),
    decreases msgs.len(),
{
    if msgs.len() == 0 {
        assert(msgs.flatten() =~= Seq::<u8>::empty());
        assert(v.pending + msgs.flatten() =~= v.pending);
    } else {
        let head = msgs.drop_last();
        lemma_writes_append(v, head);
        head.lemma_flatten_push(msgs.last());
        assert(head.push(msgs.last()) =~= msgs);
        assert((v.pending + head.flatten()) + msgs.last() =~= v.pending + (head.flatten()
            + msgs.last()));
    }
}

/// Reads of `size` bytes from a ring whose unread bytes are payloads of
/// that size take the payloads off one by one.
proof fn lemma_reads_peel(v: RingState, msgs: Seq<Seq<u8>>, size: nat, count: nat)
    requires
        v.inv(),
        size > 0,
        payloads_of_size(msgs, size),
        v.pending == msgs.flatten(),
        count <= msgs.len(),
    ensures
        after_reads(v, count, size).inv(),
        after_reads(v, count, size).capacity == v.capacity,
        after_reads(v, count, size).pending == msgs.skip(count as int).flatten(),
        count < msgs.len() ==> {
            let before = after_reads(v, count, size);
            &&& before.pending.len() > 0
            &&& before.read_len(size) == size
            &&& before.read_bytes(size) == msgs[count as int]
        },
    decreases count,
{
    if count == 0 {
        assert(msgs.skip(0) =~= msgs);
    } else {
        lemma_reads_peel(v, msgs, size, (count - 1) as nat);
        let before = after_reads(v, (count - 1) as nat, size);
        let rest = msgs.skip(count - 1);
        assert(rest.first() == msgs[count - 1]);
        assert(rest.drop_first() =~= msgs.skip(count as int));
        assert(before.pending.skip(size as int) =~= msgs.skip(count as int).flatten());
    }
    if count < msgs.len() {
        let here = after_reads(v, count, size);
        let rest = msgs.skip(count as int);
        assert(rest.first() == msgs[count as int]);
        assert(here.pending.take(size as int) =~= msgs[count as int]);
    }
}

/// After a batch of equally sized payloads was written to an empty ring,
/// every write accepted, exactly as many reads of that size succeed: each
/// hands over one payload, in the order written, and the ring is empty
/// after the last.
pub proof fn lemma_batch_round_trip(v: RingState, msgs: Seq<Seq<u8>>, size: nat)
    requires
        v.inv(),
        v.pending.len() == 0,
        size > 0,
        payloads_of_size(msgs, size),
        writes_accepted(v, msgs),
    ensures
        forall|i: nat|
            #![trigger after_reads(after_writes(v, msgs), i, size)]
            i < msgs.len() ==> {
                let before = after_reads(after_writes(v, msgs), i, size);
                &&& before.inv()
                &&& before.pending.len() > 0
                &&& before.read_len(size) == size
                &&& before.read_bytes(size) == msgs[i as int]
            },
        after_reads(after_writes(v, msgs), msgs.len(), size).inv(),
        after_reads(after_writes(v, msgs), msgs.len(), size).pending.len() == 0,
{
    lemma_writes_append(v, msgs);
    let filled = after_writes(v, msgs);
    assert(filled.pending =~= msgs.flatten());
    assert forall|i: nat| #![trigger after_reads(filled, i, size)] i < msgs.len() implies {
        let before = after_reads(filled, i, size);
        &&& before.inv()
        &&& before.pending.len() > 0
        &&& before.read_len(size) == size
        &&& before.read_bytes(size) == msgs[i as int]
    } by {
        lemma_reads_peel(filled, msgs, size, i);
    }
    lemma_reads_peel(filled, msgs, size, msgs.len());
    assert(msgs.skip(msgs.len() as int) =~= Seq::<Seq<u8>>::empty());
}

/// One operation on a ring: a write of some bytes, or a read into some
/// room.
pub enum RingOp {
    /// A write of these bytes.
    Write(Seq<u8>),
    /// A read into this many bytes of space.
    Read(nat),
}

/// The ring after one operation: an accepted write appends, a refused write
/// changes nothing, a read takes what fits.
pub open spec fn step(v: RingState, op: RingOp) -> RingState {
    match op {
        RingOp::Write(bytes) => if v.write_result(bytes.len()) is Ok {
            v.write(bytes)
        } else {
            v
        },
        RingOp::Read(room) => v.read(v.read_len(room)),
    }
}

/// The bytes that one operation puts into the ring.
pub open spec fn taken_in(v: RingState, op: RingOp) -> Seq<u8> {
    match op {
        RingOp::Write(bytes) => if v.write_result(bytes.len()) is Ok {
            bytes
        } else {
            Seq::empty()
        },
        RingOp::Read(_) => Seq::empty(),
    }
}

/// The bytes that one operation hands out of the ring.
pub open spec fn handed_out(v: RingState, op: RingOp) -> Seq<u8> {
    match op {
        RingOp::Write(_) => Seq::empty(),
        RingOp::Read(room) => v.read_bytes(room),
    }
}

/// The ring after a run of operations.
pub open spec fn run(v: RingState, ops: Seq<RingOp>) -> RingState
    decreases ops.len(),
{
    if ops.len() == 0 {
        v
    } else {
        step(run(v, ops.drop_last()), ops.last())
    }
}

/// All bytes that a run of operations puts into the ring, in order.
pub open spec fn all_taken_in(v: RingState, ops: Seq<RingOp>) -> Seq<u8>
    decreases ops.len(),
{
    if ops.len() == 0 {
        Seq::empty()
    } else {
        all_taken_in(v, ops.drop_last()) + taken_in(run(v, ops.drop_last()), ops.last())
    }
}

/// All bytes that a run of operations hands out of the ring, in order.
pub open spec fn all_handed_out(v: RingState, ops: Seq<RingOp>) -> Seq<u8>
    decreases ops.len(),
{
    if ops.len() == 0 {
        Seq::empty()
    } else {
        all_handed_out(v, ops.drop_last()) + handed_out(run(v, ops.drop_last()), ops.last())
    }
}

/// First in, first out, whatever the operations and their order: what was
/// handed out, followed by what is still unread, is what was unread at the
/// start followed by what was put in. The invariant holds throughout.
pub proof fn lemma_first_in_first_out(v: RingState, ops: Seq<RingOp>)
    requires
        v.inv(),
    ensures
        run(v, ops).inv(),
        run(v, ops).capacity == v.capacity,
        all_handed_out(v, ops) + run(v, ops).pending == v.pending + all_taken_in(v, ops),
    decreases ops.len(),
{
    if ops.len() == 0 {
        assert(all_handed_out(v, ops) + run(v, ops).pending =~= v.pending + all_taken_in(v, ops));
    } else {
        let head = ops.drop_last();
        lemma_first_in_first_out(v, head);
        let before = run(v, head);
        let out = all_handed_out(v, head);
        let taken = all_taken_in(v, head);
        match ops.last() {
            RingOp::Write(bytes) => {
                assert(out + Seq::<u8>::empty() =~= out);
                if before.write_result(bytes.len()) is Ok {
                    assert(out + (before.pending + bytes) =~= (out + before.pending) + bytes);
                    assert((v.pending + taken) + bytes =~= v.pending + (taken + bytes));
                } else {
                    assert(taken + Seq::<u8>::empty() =~= taken);
                }
            },
            RingOp::Read(room) => {
                let n = before.read_len(room) as int;
                assert(taken + Seq::<u8>::empty() =~= taken);
                assert((out + before.pending.take(n)) + before.pending.skip(n) =~= out
                    + before.pending);
            },
        }
    }
}

} // verus!
