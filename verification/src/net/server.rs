//! The server's two steps, as far as they can be decided without a socket:
//! the ingress, which turns received frames into ring writes, and the
//! consumer, which drains the ring and judges what it finds.

use vstd::prelude::*;
use crate::buffer::{lemma_read_read, lemma_write_write, RingBuffer, RingState};
use crate::error::BrokerError;
use crate::net::message::{MessageHeader, MessageView, ProcessedMessage};
use crate::{BATCH_SIZE, BUFFER_CHUNK};

verus! {

/// Where a connection's ingress stands.
#[derive(Clone, Copy, Debug, PartialEq, Eq, Structural)]
pub enum IngressState {
    /// Nothing accepted yet.
    Idle,
    /// Waiting for the eight bytes of a header.
    ReadingHeader,
    /// Waiting for the body that `header` announced.
    ReadingBody { header: MessageHeader },
    /// Writing the payloads of a body into the ring; `next` is the first
    /// payload not yet written.
    Enqueuing { header: MessageHeader, next: u32 },
    /// Done with the connection, for good.
    Shutdown,
}

/// What the caller is to do next for the connection.
#[derive(Clone, Copy, Debug, PartialEq, Eq, Structural)]
pub enum IngressAction {
    /// Read exactly eight bytes and hand them to `on_header`.
    ReadHeader,
    /// Read exactly `len` bytes and hand them to `on_body`.
    ReadBody { len: usize },
    /// The ring is full: let the consumer run, then hand the same body to
    /// `on_retry`.
    Yield,
    /// Stop serving the connection.
    Close,
}

impl IngressState {
    /// What holds of every state: a header that is waited on or worked on is
    /// valid, its body fits in memory, and work on it is not yet finished.
    pub open spec fn inv(self) -> bool {
        match self {
            IngressState::ReadingBody { header } => header.valid() && header.body_len()
                <= usize::MAX,
            IngressState::Enqueuing { header, next } => header.valid() && header.body_len()
                <= usize::MAX && next < header.batch_size,
            _ => true,
        }
    }

    /// State and action after a connection was accepted.
    pub open spec fn on_accept(self) -> (IngressState, IngressAction) {
        match self {
            IngressState::Idle => (IngressState::ReadingHeader, IngressAction::ReadHeader),
            _ => (IngressState::Shutdown, IngressAction::Close),
        }
    }

    /// State and action after `bytes` were read as a header.
    pub open spec fn on_header(self, bytes: Seq<u8>) -> (IngressState, IngressAction) {
        match (self, MessageHeader::decode(bytes)) {
            (IngressState::ReadingHeader, Some(header)) => if header.valid() && header.body_len()
                <= usize::MAX {
                (
                    IngressState::ReadingBody { header },
                    IngressAction::ReadBody { len: header.body_len() as usize },
                )
            } else {
                (IngressState::Shutdown, IngressAction::Close)
            },
            _ => (IngressState::Shutdown, IngressAction::Close),
        }
    }

    /// The header and first unwritten payload of the body that this state
    /// takes, if `len` is the length of that body.
    pub open spec fn takes_body(self, len: nat, retry: bool) -> Option<(MessageHeader, nat)> {
        match self {
            IngressState::ReadingBody { header } => if !retry && len == header.body_len() {
                Some((header, 0nat))
            } else {
                None
            },
            IngressState::Enqueuing { header, next } => if retry && len == header.body_len() {
                Some((header, next as nat))
            } else {
                None
            },
            _ => None,
        }
    }
}

/// The payloads `from..to` of a body cut into payloads of `size` bytes.
pub open spec fn payloads(body: Seq<u8>, size: nat, from: nat, to: nat) -> Seq<u8> {
    body.subrange((from * size) as int, (to * size) as int)
}

/// What enqueuing the payloads of `body` from payload `start` on comes to:
/// a payload too large for the ring closes the connection with nothing
/// written; otherwise payloads are written in order until the batch is done
/// or the ring has no room for the next one.
pub open spec fn enqueued(
    header: MessageHeader,
    start: nat,
    body: Seq<u8>,
    before: RingState,
    after: RingState,
    state: IngressState,
    action: IngressAction,
) -> bool {
    let size = header.size as nat;
    if size > before.max_message() {
        &&& state == IngressState::Shutdown
        &&& action == IngressAction::Close
        &&& after == before
    } else {
        match state {
            IngressState::ReadingHeader => {
                &&& action == IngressAction::ReadHeader
                &&& after == before.write(payloads(body, size, start, header.batch_size as nat))
            },
            IngressState::Enqueuing { header: h, next } => {
                &&& action == IngressAction::Yield
                &&& h == header
                &&& start <= next < header.batch_size
                &&& after == before.write(payloads(body, size, start, next as nat))
                &&& after.write_result(size) == Err::<(), BrokerError>(BrokerError::BufferFull)
            },
            _ => false,
        }
    }
}

/// The ingress of one connection: it says what to read next and moves what
/// was read into the ring.
pub struct Ingress {
    state: IngressState,
}

impl View for Ingress {
    type V = IngressState;

    closed spec fn view(&self) -> IngressState {
        self.state
    }
}

impl Ingress {
    #[verifier::type_invariant]
    spec fn well_formed(&self) -> bool {
        self.state.inv()
    }

    /// Makes the ingress of a connection not yet accepted.
    pub fn new() -> (ingress: Self)
        ensures
            ingress@ == IngressState::Idle,
    {
        Ingress { state: IngressState::Idle }
    }

    /// Where the ingress stands.
    pub fn state(&self) -> (state: IngressState)
        ensures
            state == self@,
            state.inv(),
    {
        proof {
            use_type_invariant(self);
        }
        self.state
    }

    /// The connection was accepted: start with a header.
    pub fn accept(&mut self) -> (action: IngressAction)
        ensures
            (final(self)@, action) == old(self)@.on_accept(),
    {
        match self.state {
            IngressState::Idle => {
                self.state = IngressState::ReadingHeader;
                IngressAction::ReadHeader
            },
            _ => {
                self.state = IngressState::Shutdown;
                IngressAction::Close
            },
        }
    }

    /// The shutdown signal was seen, or the socket ended or failed: done.
    pub fn shutdown(&mut self) -> (action: IngressAction)
        ensures
            final(self)@ == IngressState::Shutdown,
            action == IngressAction::Close,
    {
        self.state = IngressState::Shutdown;
        IngressAction::Close
    }

    /// The bytes of a header were read. A header that announces no payload,
    /// empty payloads or a body too long for memory closes the connection,
    /// as do bytes that are not eight, or a header that was not due.
    pub fn on_header(&mut self, bytes: &[u8]) -> (action: IngressAction)
        ensures
            (final(self)@, action) == old(self)@.on_header(bytes@),
            final(self)@.inv(),
    {
        if let IngressState::ReadingHeader = self.state {
            if let Some(header) = MessageHeader::from_bytes(bytes) {
                if let Some(len) = header.total_size() {
                    self.state = IngressState::ReadingBody { header };
                    return IngressAction::ReadBody { len };
                }
            }
        }
        self.state = IngressState::Shutdown;
        IngressAction::Close
    }

    /// The body that the header announced was read: write its payloads into
    /// the ring, one write each, in order. A body of another length, or one
    /// that was not due, closes the connection.
    pub fn on_body(&mut self, ring: &mut RingBuffer, body: &[u8]) -> (action: IngressAction)
        ensures
            final(self)@.inv(),
            match old(self)@.takes_body(body@.len(), false) {
                Some((header, start)) => final(ring)@.inv() && enqueued(
                    header,
                    start,
                    body@,
                    old(ring)@,
                    final(ring)@,
                    final(self)@,
                    action,
                ),
                None => {
                    &&& final(self)@ == IngressState::Shutdown
                    &&& action == IngressAction::Close
                    &&& final(ring)@ == old(ring)@
                },
            },
    {
        proof {
            use_type_invariant(&*self);
        }
        if let IngressState::ReadingBody { header } = self.state {
            if Some(body.len()) == header.total_size() {
                return self.enqueue(ring, header, 0, body);
            }
        }
        self.state = IngressState::Shutdown;
        IngressAction::Close
    }

    /// The ring may have room again: go on writing the payloads of the same
    /// body where the last call stopped. A body of another length, or a
    /// retry that was not due, closes the connection.
    pub fn on_retry(&mut self, ring: &mut RingBuffer, body: &[u8]) -> (action: IngressAction)
        ensures
            final(self)@.inv(),
            match old(self)@.takes_body(body@.len(), true) {
                Some((header, start)) => final(ring)@.inv() && enqueued(
                    header,
                    start,
                    body@,
                    old(ring)@,
                    final(ring)@,
                    final(self)@,
                    action,
                ),
                None => {
                    &&& final(self)@ == IngressState::Shutdown
                    &&& action == IngressAction::Close
                    &&& final(ring)@ == old(ring)@
                },
            },
    {
        proof {
            use_type_invariant(&*self);
        }
        if let IngressState::Enqueuing { header, next } = self.state {
            if Some(body.len()) == header.total_size() {
                return self.enqueue(ring, header, next, body);
            }
        }
        self.state = IngressState::Shutdown;
        IngressAction::Close
    }

    /// Writes the payloads of `body` from payload `start` on into the ring
    /// until the batch is done or a write is refused.
    fn enqueue(
        &mut self,
        ring: &mut RingBuffer,
        header: MessageHeader,
        start: u32,
        body: &[u8],
    ) -> (action: IngressAction)
        requires
            header.valid(),
            body@.len() == header.body_len() <= usize::MAX,
            start < header.batch_size,
        ensures
            final(ring)@.inv(),
            final(self)@.inv(),
            enqueued(header, start as nat, body@, old(ring)@, final(ring)@, final(self)@, action),
    {
        let size = header.size as usize;
        let ghost before = ring@;
        proof {
            lemma_payload_bounds(header.size as nat, start as nat, header.batch_size as nat);
        }
        let mut next: u32 = start;
        let mut offset: usize = start as usize * size;
        proof {
            assert(payloads(body@, size as nat, start as nat, start as nat) =~= Seq::<u8>::empty());
            assert(before.write(Seq::<u8>::empty()) =~= before);
        }
        while next < header.batch_size
            invariant
                header.valid(),
                size == header.size,
                body@.len() == header.body_len() <= usize::MAX,
                start <= next <= header.batch_size,
                offset == next * size,
                before == old(ring)@,
                next > start ==> before.inv() && ring@.inv() && size <= before.max_message(),
                ring@ == before.write(payloads(body@, size as nat, start as nat, next as nat)),
            decreases header.batch_size - next,
        {
            proof {
                lemma_payload_bounds(size as nat, next as nat + 1, header.batch_size as nat);
                lemma_payload_bounds(size as nat, start as nat, next as nat);
                assert((next + 1) * size == next * size + size) by (nonlinear_arith);
            }
            let payload = &body[offset..offset + size];
            match ring.try_write(payload) {
                Ok(()) => {
                    proof {
                        let done = payloads(body@, size as nat, start as nat, next as nat);
                        lemma_write_write(before, done, payload@);
                        assert(done + payload@ =~= payloads(
                            body@,
                            size as nat,
                            start as nat,
                            next as nat + 1,
                        ));
                    }
                    offset += size;
                    next += 1;
                },
                Err(BrokerError::BufferFull) => {
                    self.state = IngressState::Enqueuing { header, next };
                    return IngressAction::Yield;
                },
                Err(_) => {
                    self.state = IngressState::Shutdown;
                    return IngressAction::Close;
                },
            }
        }
        self.state = IngressState::ReadingHeader;
        IngressAction::ReadHeader
    }
}

/// Number of consumed chunks after which a report is due.
pub const REPORT_EVERY: u64 = 1_000_000;

/// What the consumer has counted so far, each count with wrap-around.
#[derive(Clone, Copy, Debug, PartialEq, Eq, Structural)]
pub struct ConsumerStats {
    /// Chunks taken from the ring.
    pub consumed: u64,
    /// Chunks that held an intact, fresh message.
    pub processed: u64,
    /// Chunks that did not.
    pub errors: u64,
}

impl ConsumerStats {
    /// Nothing counted.
    pub open spec fn zero() -> ConsumerStats {
        ConsumerStats { consumed: 0, processed: 0, errors: 0 }
    }

    /// The counts after one more chunk, accepted or not.
    pub open spec fn counted(self, ok: bool) -> ConsumerStats {
        ConsumerStats {
            consumed: self.consumed.wrapping_add(1),
            processed: if ok {
                self.processed.wrapping_add(1)
            } else {
                self.processed
            },
            errors: if ok {
                self.errors
            } else {
                self.errors.wrapping_add(1)
            },
        }
    }

    /// The counts after more chunks were judged, one answer each: all of
    /// them are consumed, the accepted ones processed, the others in error.
    pub open spec fn tallied(self, oks: Seq<bool>) -> ConsumerStats {
        let accepted = accepted_count(oks);
        ConsumerStats {
            consumed: self.consumed.wrapping_add(oks.len() as u64),
            processed: self.processed.wrapping_add(accepted as u64),
            errors: self.errors.wrapping_add((oks.len() - accepted) as u64),
        }
    }

    /// Whether a report is due: a positive multiple of [`REPORT_EVERY`]
    /// chunks has been consumed.
    pub open spec fn report_due(self) -> bool {
        self.consumed > 0 && self.consumed % REPORT_EVERY == 0
    }

    /// Makes counts of zero.
    pub fn new() -> (stats: Self)
        ensures
            stats == ConsumerStats::zero(),
    {
        ConsumerStats { consumed: 0, processed: 0, errors: 0 }
    }

    /// Counts one more chunk, accepted or not.
    pub fn count(&mut self, ok: bool)
        ensures
            *final(self) == old(self).counted(ok),
    {
        self.consumed = self.consumed.wrapping_add(1);
        if ok {
            self.processed = self.processed.wrapping_add(1);
        } else {
            self.errors = self.errors.wrapping_add(1);
        }
    }

    /// Whether a report is due.
    pub fn is_report_due(&self) -> (due: bool)
        ensures
            due == self.report_due(),
    {
        self.consumed % REPORT_EVERY == 0 && self.consumed > 0
    }
}

/// Whether `chunk` holds an intact message that is fresh at `now_ns`.
pub open spec fn accepted_at(chunk: Seq<u8>, now_ns: u64) -> bool {
    match MessageView::parse(chunk) {
        Some(m) => MessageView::fresh_at(m.timestamp, now_ns),
        None => false,
    }
}

/// What is known of the answer `ok` on `chunk`: with the time given it is
/// decided; with the time left to the wall clock, only an intact message
/// can have been accepted.
pub open spec fn judged(chunk: Seq<u8>, now_ns: Option<u64>, ok: bool) -> bool {
    match now_ns {
        Some(t) => ok == accepted_at(chunk, t),
        None => ok ==> MessageView::parse(chunk) is Some,
    }
}

/// Judges a chunk: accepted if it holds an intact message that is fresh at
/// `now_ns`, or by the wall clock where no time is given.
pub fn judge(chunk: &[u8], now_ns: Option<u64>) -> (ok: bool)
    ensures
        judged(chunk@, now_ns, ok),
{
    match ProcessedMessage::from_bytes(chunk) {
        Some(msg) => match now_ns {
            Some(t) => msg.process_at(t),
            None => msg.process(),
        },
        None => false,
    }
}

/// Number of reads that one batch makes on a ring with `unread` bytes, into
/// `room` bytes of scratch space, one payload of `size` bytes per read: as
/// many as there are payloads unread, the last of them possibly cut short,
/// but no more than fit whole into the scratch space and no more than
/// [`BATCH_SIZE`]. Payloads of no bytes are not read.
pub open spec fn drain_count(unread: nat, room: nat, size: nat) -> nat {
    if size == 0 {
        0
    } else {
        let fit = room / size;
        let have = (unread + size - 1) as nat / size;
        if BATCH_SIZE <= fit && BATCH_SIZE <= have {
            BATCH_SIZE as nat
        } else if fit <= have {
            fit
        } else {
            have
        }
    }
}

/// The `i`-th stretch of `size` bytes of `pending`, cut at its end.
pub open spec fn chunk(pending: Seq<u8>, size: nat, i: nat) -> Seq<u8> {
    let from = if i * size <= pending.len() {
        i * size
    } else {
        pending.len()
    };
    let to = if (i + 1) * size <= pending.len() {
        (i + 1) * size
    } else {
        pending.len()
    };
    pending.subrange(from as int, to as int)
}

/// The answers at time `t` on the first `count` chunks of `pending`: each
/// chunk is accepted if it holds an intact message that is fresh at `t`.
pub open spec fn answers_at(pending: Seq<u8>, size: nat, count: nat, t: u64) -> Seq<bool> {
    Seq::new(count, |i: int| accepted_at(chunk(pending, size, i as nat), t))
}

/// How many of the answers are acceptances.
pub open spec fn accepted_count(oks: Seq<bool>) -> nat
    decreases oks.len(),
{
    if oks.len() == 0 {
        0
    } else {
        accepted_count(oks.drop_last()) + if oks.last() {
            1nat
        } else {
            0nat
        }
    }
}

/// What one batch of the consumer comes to. Up to [`BATCH_SIZE`] times it
/// reads one payload of `size` bytes from the ring into the next free
/// stretch of the scratch space, judges what the read handed over as one
/// message, and counts it; it stops early when the ring is empty or the
/// scratch space has no room for another whole payload.
pub open spec fn drained(
    before: RingState,
    after: RingState,
    scratch_before: Seq<u8>,
    scratch_after: Seq<u8>,
    stats_before: ConsumerStats,
    stats_after: ConsumerStats,
    size: nat,
    now_ns: Option<u64>,
    taken: nat,
) -> bool {
    let count = drain_count(before.pending.len(), scratch_before.len(), size);
    &&& taken == before.read_len(count * size)
    &&& after == before.read(taken)
    &&& scratch_after == before.pending.take(taken as int) + scratch_before.skip(taken as int)
    &&& match now_ns {
        Some(t) => stats_after == stats_before.tallied(
            answers_at(before.pending, size, count, t),
        ),
        None => exists|oks: Seq<bool>|
            {
                &&& oks.len() == count
                &&& forall|i: int|
                    0 <= i < count ==> judged(
                        chunk(before.pending, size, i as nat),
                        None,
                        #[trigger] oks[i],
                    )
                &&& #[trigger] stats_before.tallied(oks) == stats_after
            },
    }
}

/// Runs one batch of the consumer on `ring`, reading payloads of `size`
/// bytes into `scratch` one behind the other, and returns the number of
/// bytes taken. Payloads are judged at `now_ns`, or by the wall clock where
/// no time is given.
#[verifier::rlimit(40)]
pub fn drain_batch(
    ring: &mut RingBuffer,
    scratch: &mut [u8],
    stats: &mut ConsumerStats,
    size: usize,
    now_ns: Option<u64>,
) -> (taken: usize)
    ensures
        old(ring)@.inv(),
        final(ring)@.inv(),
        drained(
            old(ring)@,
            final(ring)@,
            old(scratch)@,
            final(scratch)@,
            *old(stats),
            *final(stats),
            size as nat,
            now_ns,
            taken as nat,
        ),
{
    let room = scratch.len();
    let ghost before = ring@;
    let ghost pending = before.pending;
    let ghost mut oks: Seq<bool> = Seq::empty();
    let ghost mut done: nat = 0;
    let mut offset: usize = 0;
    let mut round: usize = 0;
    proof {
        lemma_span_step(0, size as nat);
        lemma_tallied_push(*stats, oks, true);
        lemma_scratch_start(before, old(scratch)@);
    }
    if ring.is_empty() || size == 0 {
        proof {
            lemma_drain_count(pending.len(), room as nat, size as nat, 0, 0);
            if let Some(t) = now_ns {
                assert(oks =~= answers_at(pending, size as nat, 0, t));
            }
        }
        return 0;
    }
    while round < BATCH_SIZE
        invariant_except_break
            round <= BATCH_SIZE,
        invariant
            size > 0,
            before == old(ring)@,
            pending == before.pending,
            before.inv(),
            ring@.inv(),
            scratch@.len() == room == old(scratch)@.len(),
            done == span(round as nat, size as nat),
            done <= room,
            round >= 1 ==> done - size < pending.len(),
            offset == if done <= pending.len() {
                done
            } else {
                pending.len()
            },
            ring@ == before.read(offset as nat),
            scratch@ == pending.take(offset as int) + old(scratch)@.skip(offset as int),
            oks.len() == round,
            forall|i: int|
                0 <= i < round ==> judged(
                    chunk(pending, size as nat, i as nat),
                    now_ns,
                    #[trigger] oks[i],
                ),
            *stats == old(stats).tallied(oks),
        ensures
            round <= BATCH_SIZE,
            round == BATCH_SIZE || room - offset < size || pending.len() <= done,
        decreases BATCH_SIZE - round,
    {
        if room - offset < size {
            break ;
        }
        let ghost held = scratch@;
        let ghost here = ring@;
        let (head, rest) = scratch.split_at_mut(offset);
        let (slot, tail) = rest.split_at_mut(size);
        let ghost slot_before = slot@;
        match ring.try_read(slot) {
            Ok(n) => {
                let ok = judge(&slot[0..n], now_ns);
                stats.count(ok);
                proof {
                    assert(here.pending =~= pending.skip(offset as int));
                    assert(slot_before =~= held.subrange(offset as int, offset + size));
                    assert(slot@.subrange(0, n as int) =~= pending.skip(offset as int).take(
                        n as int,
                    ));
                    lemma_span_step(round as nat, size as nat);
                    lemma_chunk_read(pending, size as nat, round as nat, done, n as nat);
                    lemma_read_read(before, offset as nat, n as nat);
                    lemma_scratch_step(
                        pending,
                        old(scratch)@,
                        held,
                        slot@,
                        offset as int,
                        size as int,
                        n as int,
                    );
                    assert(head@ + (slot@ + tail@) =~= held.take(offset as int) + (slot@
                        + held.skip(offset + size)));
                    lemma_tallied_push(*old(stats), oks, ok);
                    oks = oks.push(ok);
                    done = (done + size) as nat;
                }
                offset += n;
            },
            Err(_) => {
                proof {
                    assert(head@ + (slot@ + tail@) =~= held);
                }
                break ;
            },
        }
        round += 1;
    }
    proof {
        lemma_drain_count(pending.len(), room as nat, size as nat, round as nat, done);
        match now_ns {
            Some(t) => {
                assert(oks =~= answers_at(pending, size as nat, round as nat, t));
            },
            None => {
                assert(old(stats).tallied(oks) == *stats);
            },
        }
    }
    offset
}

/// The bytes of `count` payloads of `size` bytes.
#[verifier::opaque]
pub open spec fn span(count: nat, size: nat) -> nat {
    count * size
}

/// No payloads have no bytes, and one payload more has `size` bytes more.
proof fn lemma_span_step(count: nat, size: nat)
    ensures
        span(0, size) == 0,
        span(count + 1, size) == span(count, size) + size,
{
    reveal(span);
    assert(0 * size == 0) by (nonlinear_arith);
    assert((count + 1) * size == count * size + size) by (nonlinear_arith);
}

/// Before the first read nothing is taken: ring and scratch space are as
/// they were.
proof fn lemma_scratch_start(before: RingState, scratch: Seq<u8>)
    ensures
        before.read(0) == before,
        before.pending.take(0) + scratch.skip(0) == scratch,
{
    assert(before.read(0) =~= before);
    assert(before.pending.take(0) + scratch.skip(0) =~= scratch);
}

/// A read of one payload's size, made after `round` whole payloads were
/// taken, hands over the chunk of that number.
proof fn lemma_chunk_read(pending: Seq<u8>, size: nat, round: nat, done: nat, n: nat)
    requires
        done == span(round, size),
        done < pending.len(),
        n == if size <= pending.len() - done {
            size
        } else {
            (pending.len() - done) as nat
        },
    ensures
        chunk(pending, size, round) == pending.skip(done as int).take(n as int),
{
    reveal(span);
    assert((round + 1) * size == round * size + size) by (nonlinear_arith);
    assert(chunk(pending, size, round) =~= pending.skip(done as int).take(n as int));
}

/// The scratch space after one more read: what was taken before, then what
/// this read handed over, then the rest as it was.
proof fn lemma_scratch_step(
    pending: Seq<u8>,
    scratch: Seq<u8>,
    held: Seq<u8>,
    slot: Seq<u8>,
    offset: int,
    size: int,
    n: int,
)
    requires
        0 <= offset,
        0 <= n <= size,
        offset + n <= pending.len(),
        offset + size <= scratch.len(),
        held == pending.take(offset) + scratch.skip(offset),
        slot == pending.skip(offset).take(n) + held.subrange(offset, offset + size).skip(n),
    ensures
        held.take(offset) + (slot + held.skip(offset + size)) == pending.take(offset + n)
            + scratch.skip(offset + n),
{
    assert(held.take(offset) + (slot + held.skip(offset + size)) =~= pending.take(offset + n)
        + scratch.skip(offset + n));
}

/// The number of reads at which a batch stops is the number that
/// [`drain_count`] gives: every read so far had room and found bytes, and
/// the batch stops because it is complete, the scratch space has no room
/// for another whole payload, or the ring is empty.
proof fn lemma_drain_count(unread: nat, room: nat, size: nat, round: nat, done: nat)
    requires
        round <= BATCH_SIZE,
        done == span(round, size),
        size > 0 ==> done <= room,
        size > 0 && round >= 1 ==> done - size < unread,
        size == 0 || unread == 0 ==> round == 0,
        size == 0 || round == BATCH_SIZE || unread <= done || room - (if done <= unread {
            done
        } else {
            unread
        }) < size,
    ensures
        round == drain_count(unread, room, size),
        done == round * size,
{
    reveal(span);
    if size > 0 {
        let fit = room / size;
        let have = (unread + size - 1) as nat / size;
        assert(round <= fit) by (nonlinear_arith)
            requires
                size > 0,
                round * size <= room,
                fit == room / size,
        ;
        assert(round <= have) by (nonlinear_arith)
            requires
                size > 0,
                round >= 1 ==> round * size - size < unread,
                have == (unread + size - 1) as nat / size,
        ;
        if round < BATCH_SIZE {
            if unread <= round * size {
                assert(have <= round) by (nonlinear_arith)
                    requires
                        size > 0,
                        unread <= round * size,
                        have == (unread + size - 1) as nat / size,
                ;
            } else {
                assert(fit <= round) by (nonlinear_arith)
                    requires
                        size > 0,
                        room - round * size < size,
                        fit == room / size,
                ;
            }
        }
    }
}

/// What a consumer holds between batches.
#[verifier::ext_equal]
pub struct ConsumerView {
    /// The two scratch spaces.
    pub scratch: (Seq<u8>, Seq<u8>),
    /// Whether the next batch reads into the second scratch space.
    pub second_next: bool,
    /// The counts so far.
    pub stats: ConsumerStats,
}

impl ConsumerView {
    /// The scratch space that the next batch reads into.
    pub open spec fn current(self) -> Seq<u8> {
        if self.second_next {
            self.scratch.1
        } else {
            self.scratch.0
        }
    }

    /// The scratch space that the next batch leaves alone.
    pub open spec fn resting(self) -> Seq<u8> {
        if self.second_next {
            self.scratch.0
        } else {
            self.scratch.1
        }
    }
}

/// The consumer of a ring: two scratch spaces used in turn, and the counts.
pub struct Consumer {
    first: Vec<u8>,
    second: Vec<u8>,
    second_next: bool,
    stats: ConsumerStats,
}

impl View for Consumer {
    type V = ConsumerView;

    closed spec fn view(&self) -> ConsumerView {
        ConsumerView {
            scratch: (self.first@, self.second@),
            second_next: self.second_next,
            stats: self.stats,
        }
    }
}

impl Consumer {
    /// Makes a consumer with two scratch spaces of [`BUFFER_CHUNK`] times
    /// [`BATCH_SIZE`] bytes each, that has counted nothing.
    pub fn new() -> (consumer: Self)
        ensures
            consumer@.scratch.0 == Seq::new((BUFFER_CHUNK * BATCH_SIZE) as nat, |i: int| 0u8),
            consumer@.scratch.1 == Seq::new((BUFFER_CHUNK * BATCH_SIZE) as nat, |i: int| 0u8),
            !consumer@.second_next,
            consumer@.stats == ConsumerStats::zero(),
    {
        Self::with_scratch(BUFFER_CHUNK * BATCH_SIZE)
    }

    /// Makes a consumer with two scratch spaces of `len` bytes each, that
    /// has counted nothing.
    pub fn with_scratch(len: usize) -> (consumer: Self)
        ensures
            consumer@.scratch.0 == Seq::new(len as nat, |i: int| 0u8),
            consumer@.scratch.1 == Seq::new(len as nat, |i: int| 0u8),
            !consumer@.second_next,
            consumer@.stats == ConsumerStats::zero(),
    {
        Consumer {
            first: vec![0u8; len],
            second: vec![0u8; len],
            second_next: false,
            stats: ConsumerStats::new(),
        }
    }

    /// The counts so far.
    pub fn stats(&self) -> (stats: ConsumerStats)
        ensures
            stats == self@.stats,
    {
        self.stats
    }

    /// Runs one batch on `ring`, reading payloads of `size` bytes into the
    /// scratch space whose turn it is, then gives the turn to the other
    /// one. Returns the number of bytes taken from the ring.
    pub fn run_batch(
        &mut self,
        ring: &mut RingBuffer,
        size: usize,
        now_ns: Option<u64>,
    ) -> (taken: usize)
        ensures
            old(ring)@.inv(),
            final(ring)@.inv(),
            final(self)@.second_next == !old(self)@.second_next,
            final(self)@.current() == old(self)@.resting(),
            drained(
                old(ring)@,
                final(ring)@,
                old(self)@.current(),
                final(self)@.resting(),
                old(self)@.stats,
                final(self)@.stats,
                size as nat,
                now_ns,
                taken as nat,
            ),
    {
        let taken = if self.second_next {
            drain_batch(ring, self.second.as_mut_slice(), &mut self.stats, size, now_ns)
        } else {
            drain_batch(ring, self.first.as_mut_slice(), &mut self.stats, size, now_ns)
        };
        self.second_next = !self.second_next;
        taken
    }
}

/// Payload boundaries grow with the payload's number.
pub proof fn lemma_payload_bounds(size: nat, from: nat, to: nat)
    requires
        from <= to,
    ensures
        from * size <= to * size,
{
    assert(from * size <= to * size) by (nonlinear_arith)
        requires
            from <= to,
    ;
}

/// What two enqueuing steps in a row write is what one step over both
/// ranges writes: no payload is skipped and none is written twice. The
/// payloads of a whole batch are the body itself.
pub proof fn lemma_payloads_join(body: Seq<u8>, size: nat, from: nat, mid: nat, to: nat)
    requires
        from <= mid <= to,
        to * size <= body.len(),
    ensures
        payloads(body, size, from, mid) + payloads(body, size, mid, to) == payloads(
            body,
            size,
            from,
            to,
        ),
        to * size == body.len() ==> payloads(body, size, 0, to) == body,
{
    lemma_payload_bounds(size, from, mid);
    lemma_payload_bounds(size, mid, to);
    assert(payloads(body, size, from, mid) + payloads(body, size, mid, to) =~= payloads(
        body,
        size,
        from,
        to,
    ));
    if to * size == body.len() {
        assert(0 * size == 0) by (nonlinear_arith);
        assert(payloads(body, size, 0, to) =~= body);
    }
}

/// Shutdown is final: whatever arrives afterwards, the ingress stays shut
/// down, asks for the connection to be closed, and takes no body.
pub proof fn lemma_shutdown_is_final(bytes: Seq<u8>, len: nat, retry: bool)
    ensures
        IngressState::Shutdown.on_accept() == (IngressState::Shutdown, IngressAction::Close),
        IngressState::Shutdown.on_header(bytes) == (IngressState::Shutdown, IngressAction::Close),
        IngressState::Shutdown.takes_body(len, retry) is None,
{
}

/// No more answers are acceptances than there are answers.
pub proof fn lemma_accepted_count_bound(oks: Seq<bool>)
    ensures
        accepted_count(oks) <= oks.len(),
    decreases oks.len(),
{
    if oks.len() > 0 {
        lemma_accepted_count_bound(oks.drop_last());
    }
}

/// Tallying one more answer is counting one more chunk.
pub proof fn lemma_tallied_push(stats: ConsumerStats, oks: Seq<bool>, ok: bool)
    requires
        oks.len() < u64::MAX,
    ensures
        stats.tallied(oks.push(ok)) == stats.tallied(oks).counted(ok),
        stats.tallied(Seq::empty()) == stats,
{
    lemma_accepted_count_bound(oks);
    assert(oks.push(ok).drop_last() =~= oks);
    assert(accepted_count(Seq::<bool>::empty()) == 0);
}

/// Where every answer is the same, the tally is plain: all accepted, the
/// chunks are all processed; none accepted, they are all in error.
pub proof fn lemma_tallied_alike(stats: ConsumerStats, oks: Seq<bool>, ok: bool)
    requires
        forall|i: int| 0 <= i < oks.len() ==> oks[i] == ok,
    ensures
        accepted_count(oks) == if ok {
            oks.len()
        } else {
            0
        },
        stats.tallied(oks) == (ConsumerStats {
            consumed: stats.consumed.wrapping_add(oks.len() as u64),
            processed: if ok {
                stats.processed.wrapping_add(oks.len() as u64)
            } else {
                stats.processed
            },
            errors: if ok {
                stats.errors
            } else {
                stats.errors.wrapping_add(oks.len() as u64)
            },
        }),
    decreases oks.len(),
{
    if oks.len() > 0 {
        let head = oks.drop_last();
        assert forall|i: int| 0 <= i < head.len() implies head[i] == ok by {
            assert(head[i] == oks[i]);
        }
        lemma_tallied_alike(stats, head, ok);
        assert(oks.last() == oks[oks.len() - 1]);
    }
}

/// The counts add up: as long as they started so, the chunks consumed are
/// those processed and those in error together, counted with wrap-around.
pub proof fn lemma_counts_add_up(stats: ConsumerStats, oks: Seq<bool>)
    requires
        stats.consumed == stats.processed.wrapping_add(stats.errors),
        oks.len() <= u64::MAX,
    ensures
        ConsumerStats::zero().consumed == ConsumerStats::zero().processed.wrapping_add(
            ConsumerStats::zero().errors,
        ),
        stats.tallied(oks).consumed == stats.tallied(oks).processed.wrapping_add(
            stats.tallied(oks).errors,
        ),
{
    lemma_accepted_count_bound(oks);
}

/// A ring that holds whole payloads only, no more than a batch, is emptied
/// by one batch into a scratch space with room for them all: each payload
/// is taken by one read, lies in the scratch space in its place, and is
/// judged by itself.
pub proof fn lemma_drain_whole_payloads(
    before: RingState,
    after: RingState,
    scratch_before: Seq<u8>,
    scratch_after: Seq<u8>,
    stats_before: ConsumerStats,
    stats_after: ConsumerStats,
    size: nat,
    now_ns: Option<u64>,
    taken: nat,
    count: nat,
)
    requires
        before.inv(),
        size > 0,
        count <= BATCH_SIZE,
        before.pending.len() == count * size,
        count * size <= scratch_before.len(),
        drained(
            before,
            after,
            scratch_before,
            scratch_after,
            stats_before,
            stats_after,
            size,
            now_ns,
            taken,
        ),
    ensures
        drain_count(before.pending.len(), scratch_before.len(), size) == count,
        taken == count * size,
        after.pending.len() == 0,
        scratch_after.take(taken as int) == before.pending,
        forall|i: nat|
            i < count ==> #[trigger] chunk(before.pending, size, i) == payloads(
                before.pending,
                size,
                i,
                i + 1,
            ),
        match now_ns {
            Some(t) => stats_after == stats_before.tallied(
                Seq::new(
                    count,
                    |i: int| accepted_at(payloads(before.pending, size, i as nat, i as nat + 1), t),
                ),
            ),
            None => exists|oks: Seq<bool>|
                {
                    &&& oks.len() == count
                    &&& forall|i: int|
                        0 <= i < count ==> judged(
                            payloads(before.pending, size, i as nat, i as nat + 1),
                            None,
                            #[trigger] oks[i],
                        )
                    &&& #[trigger] stats_before.tallied(oks) == stats_after
                },
        },
{
    let unread = before.pending.len();
    let room = scratch_before.len();
    let fit = room / size;
    let have = (unread + size - 1) as nat / size;
    assert(have == count) by (nonlinear_arith)
        requires
            size > 0,
            unread == count * size,
            have == (unread + size - 1) as nat / size,
    ;
    assert(count <= fit) by (nonlinear_arith)
        requires
            size > 0,
            count * size <= room,
            fit == room / size,
    ;
    assert(drain_count(unread, room, size) == count);
    assert(before.pending.take(taken as int) =~= before.pending);
    assert(scratch_after.take(taken as int) =~= before.pending);
    assert forall|i: nat| i < count implies #[trigger] chunk(before.pending, size, i) == payloads(
        before.pending,
        size,
        i,
        i + 1,
    ) by {
        lemma_payload_bounds(size, i + 1, count);
        lemma_payload_bounds(size, i, i + 1);
    }
    match now_ns {
        Some(t) => {
            assert(answers_at(before.pending, size, count, t) =~= Seq::new(
                count,
                |i: int| accepted_at(payloads(before.pending, size, i as nat, i as nat + 1), t),
            ));
        },
        None => {
            let oks = choose|oks: Seq<bool>|
                {
                    &&& oks.len() == count
                    &&& forall|i: int|
                        0 <= i < count ==> judged(
                            chunk(before.pending, size, i as nat),
                            None,
                            #[trigger] oks[i],
                        )
                    &&& #[trigger] stats_before.tallied(oks) == stats_after
                };
            assert forall|i: int| 0 <= i < count implies judged(
                payloads(before.pending, size, i as nat, i as nat + 1),
                None,
                #[trigger] oks[i],
            ) by {
                assert(chunk(before.pending, size, i as nat) == payloads(
                    before.pending,
                    size,
                    i as nat,
                    i as nat + 1,
                ));
            }
            assert(stats_before.tallied(oks) == stats_after);
        },
    }
}

/// A ring that holds no more than a batch of whole payloads, each an intact
/// message that is fresh at the time given, is emptied by one batch, and
/// every payload is counted as consumed and processed, none as in error.
pub proof fn lemma_drain_all_accepted(
    before: RingState,
    after: RingState,
    scratch_before: Seq<u8>,
    scratch_after: Seq<u8>,
    stats_before: ConsumerStats,
    stats_after: ConsumerStats,
    size: nat,
    t: u64,
    taken: nat,
    count: nat,
)
    requires
        before.inv(),
        size > 0,
        count <= BATCH_SIZE,
        before.pending.len() == count * size,
        count * size <= scratch_before.len(),
        forall|i: nat|
            i < count ==> accepted_at(#[trigger] payloads(before.pending, size, i, i + 1), t),
        drained(
            before,
            after,
            scratch_before,
            scratch_after,
            stats_before,
            stats_after,
            size,
            Some(t),
            taken,
        ),
    ensures
        taken == count * size,
        after.pending.len() == 0,
        stats_after == (ConsumerStats {
            consumed: stats_before.consumed.wrapping_add(count as u64),
            processed: stats_before.processed.wrapping_add(count as u64),
            errors: stats_before.errors,
        }),
{
    lemma_drain_whole_payloads(
        before,
        after,
        scratch_before,
        scratch_after,
        stats_before,
        stats_after,
        size,
        Some(t),
        taken,
        count,
    );
    let oks = Seq::new(
        count,
        |i: int| accepted_at(payloads(before.pending, size, i as nat, i as nat + 1), t),
    );
    assert forall|i: int| 0 <= i < oks.len() implies oks[i] == true by {
        assert(accepted_at(payloads(before.pending, size, i as nat, i as nat + 1), t));
    }
    lemma_tallied_alike(stats_before, oks, true);
}

/// A batch that was enqueued to the end, in one step or with retries, left
/// its whole body in the ring, behind what was there: every payload was
/// written, in order, none in part.
pub proof fn lemma_whole_batch_written(
    header: MessageHeader,
    start: nat,
    body: Seq<u8>,
    before: RingState,
    after: RingState,
)
    requires
        body.len() == header.body_len(),
        start <= header.batch_size,
        enqueued(
            header,
            start,
            body,
            before,
            after,
            IngressState::ReadingHeader,
            IngressAction::ReadHeader,
        ),
    ensures
        after == before.write(body.skip((start * header.size) as int)),
        start == 0 ==> after == before.write(body),
{
    let size = header.size as nat;
    let batch = header.batch_size as nat;
    assert(size * batch == batch * size) by (nonlinear_arith);
    lemma_payload_bounds(size, start, batch);
    assert(payloads(body, size, start, batch) =~= body.skip((start * size) as int));
    if start == 0 {
        assert(0 * size == 0) by (nonlinear_arith);
        assert(body.skip(0) =~= body);
    }
}

} // verus!
