//! The client's batching: payloads are staged until a batch is complete,
//! then handed out as one frame for the caller to transmit.

use vstd::prelude::*;
use crate::net::message::MessageHeader;
use crate::{BATCH_SIZE, BUFFER_CHUNK};

verus! {

/// One transmission: a header and the payloads it announces, back to back.
pub struct Frame {
    /// The header that goes first.
    pub header: MessageHeader,
    /// The payloads, back to back.
    pub body: Vec<u8>,
}

/// A frame as a value.
#[verifier::ext_equal]
pub struct FrameView {
    /// The header that goes first.
    pub header: MessageHeader,
    /// The payloads, back to back.
    pub body: Seq<u8>,
}

impl View for Frame {
    type V = FrameView;

    open spec fn view(&self) -> FrameView {
        FrameView { header: self.header, body: self.body@ }
    }
}

impl FrameView {
    /// The bytes of the frame on the wire.
    pub open spec fn encode(self) -> Seq<u8> {
        self.header.encode() + self.body
    }

    /// Whether the body is as long as the header announces.
    pub open spec fn consistent(self) -> bool {
        self.header.body_len() == self.body.len()
    }
}

impl Frame {
    /// The bytes of the frame on the wire: the header, then the body.
    pub fn to_bytes(&self) -> (bytes: Vec<u8>)
        ensures
            bytes@ == self@.encode(),
    {
        let mut bytes = self.header.to_bytes();
        bytes.extend_from_slice(self.body.as_slice());
        proof {
            assert(bytes@ =~= self@.encode());
        }
        bytes
    }
}

/// The frame, as a value, that an exec result carries.
pub open spec fn frame_view(r: Option<Frame>) -> Option<FrameView> {
    match r {
        Some(frame) => Some(frame@),
        None => None,
    }
}

/// What a client holds between calls.
#[verifier::ext_equal]
pub struct ClientView {
    /// The bytes staged for the next frame.
    pub staged: Seq<u8>,
    /// Number of payloads staged.
    pub batch_count: nat,
    /// Number of payloads ever accepted, counted with wrap-around.
    pub total_sent: u64,
}

impl ClientView {
    /// A client that has staged nothing and sent nothing.
    pub open spec fn idle() -> ClientView {
        ClientView { staged: Seq::empty(), batch_count: 0, total_sent: 0 }
    }

    /// What holds of every client: an incomplete batch is staged.
    pub open spec fn inv(self) -> bool {
        self.batch_count < BATCH_SIZE
    }

    /// Whether the staged bytes are `batch_count` payloads of `size` bytes.
    pub open spec fn uniform(self, size: nat) -> bool {
        self.staged.len() == self.batch_count * size
    }

    /// The client after `data` was sent, and the frame that fell due, if
    /// one did. The frame's header carries the length of `data`, cut to 32
    /// bits, as the payload size.
    pub open spec fn send(self, data: Seq<u8>) -> (ClientView, Option<FrameView>) {
        let total_sent = self.total_sent.wrapping_add(1);
        if self.batch_count + 1 >= BATCH_SIZE {
            (
                ClientView { staged: Seq::empty(), batch_count: 0, total_sent },
                Some(
                    FrameView {
                        header: MessageHeader {
                            size: data.len() as u32,
                            batch_size: (self.batch_count + 1) as u32,
                        },
                        body: self.staged + data,
                    },
                ),
            )
        } else {
            (
                ClientView {
                    staged: self.staged + data,
                    batch_count: self.batch_count + 1,
                    total_sent,
                },
                None,
            )
        }
    }

    /// The client after a flush, and the frame that was handed out, if
    /// anything was staged. The frame's header carries the staged length
    /// divided by the number of payloads, cut to 32 bits, as the payload
    /// size.
    pub open spec fn flush(self) -> (ClientView, Option<FrameView>) {
        if self.batch_count > 0 {
            (
                ClientView { staged: Seq::empty(), batch_count: 0, total_sent: self.total_sent },
                Some(
                    FrameView {
                        header: MessageHeader {
                            size: (self.staged.len() / self.batch_count) as u32,
                            batch_size: self.batch_count as u32,
                        },
                        body: self.staged,
                    },
                ),
            )
        } else {
            (self, None)
        }
    }
}

/// The batching side of a client. It stages payloads and says when a frame
/// is due; sending the frame is the caller's part.
pub struct BrokerClient {
    batch: Vec<u8>,
    batch_count: u32,
    total_sent: u64,
}

impl View for BrokerClient {
    type V = ClientView;

    closed spec fn view(&self) -> ClientView {
        ClientView {
            staged: self.batch@,
            batch_count: self.batch_count as nat,
            total_sent: self.total_sent,
        }
    }
}

impl BrokerClient {
    #[verifier::type_invariant]
    spec fn well_formed(&self) -> bool {
        self.batch_count < BATCH_SIZE
    }

    /// Makes a client with nothing staged.
    pub fn new() -> (client: Self)
        ensures
            client@ == ClientView::idle(),
            client@.inv(),
    {
        BrokerClient {
            batch: Vec::with_capacity(BUFFER_CHUNK * BATCH_SIZE),
            batch_count: 0,
            total_sent: 0,
        }
    }

    /// Number of payloads staged for the next frame.
    pub fn batch_count(&self) -> (n: u32)
        ensures
            n == self@.batch_count,
            self@.inv(),
    {
        proof {
            use_type_invariant(self);
        }
        self.batch_count
    }

    /// Number of payloads ever accepted, counted with wrap-around.
    pub fn total_sent(&self) -> (n: u64)
        ensures
            n == self@.total_sent,
    {
        self.total_sent
    }

    /// Stages `data` as one more payload. When that completes a batch of
    /// [`BATCH_SIZE`] payloads, the frame to transmit comes back and the
    /// staging starts over.
    pub fn send(&mut self, data: &[u8]) -> (r: Option<Frame>)
        ensures
            old(self)@.inv(),
            final(self)@.inv(),
            (final(self)@, frame_view(r)) == old(self)@.send(data@),
    {
        proof {
            use_type_invariant(&*self);
        }
        let mut staged: Vec<u8> = Vec::new();
        core::mem::swap(&mut self.batch, &mut staged);
        staged.extend_from_slice(data);
        proof {
            assert(staged@ =~= old(self)@.staged + data@);
        }
        let count = self.batch_count + 1;
        self.total_sent = self.total_sent.wrapping_add(1);
        if count >= BATCH_SIZE as u32 {
            let header = MessageHeader { size: data.len() as u32, batch_size: count };
            self.batch = Vec::with_capacity(BUFFER_CHUNK * BATCH_SIZE);
            self.batch_count = 0;
            let frame = Frame { header, body: staged };
            proof {
                assert(self@ =~= old(self)@.send(data@).0);
                assert(frame@ =~= old(self)@.send(data@).1->0);
            }
            Some(frame)
        } else {
            core::mem::swap(&mut self.batch, &mut staged);
            self.batch_count = count;
            proof {
                assert(self@ =~= old(self)@.send(data@).0);
            }
            None
        }
    }

    /// Hands out what is staged as a frame, if anything is, and starts the
    /// staging over.
    pub fn flush(&mut self) -> (r: Option<Frame>)
        ensures
            old(self)@.inv(),
            final(self)@.inv(),
            (final(self)@, frame_view(r)) == old(self)@.flush(),
    {
        proof {
            use_type_invariant(&*self);
        }
        if self.batch_count > 0 {
            let count = self.batch_count;
            let msg_size = self.batch.len() / count as usize;
            let header = MessageHeader { size: msg_size as u32, batch_size: count };
            let mut staged: Vec<u8> = Vec::with_capacity(BUFFER_CHUNK * BATCH_SIZE);
            core::mem::swap(&mut self.batch, &mut staged);
            self.batch_count = 0;
            let frame = Frame { header, body: staged };
            proof {
                assert(self@ =~= old(self)@.flush().0);
                assert(frame@ =~= old(self)@.flush().1->0);
            }
            Some(frame)
        } else {
            None
        }
    }
}

/// The body of the frame that `frame` carries, or nothing.
pub open spec fn body_of(frame: Option<FrameView>) -> Seq<u8> {
    match frame {
        Some(f) => f.body,
        None => Seq::empty(),
    }
}

/// The client after each payload of `payloads` was sent in turn.
pub open spec fn after_sends(c: ClientView, payloads: Seq<Seq<u8>>) -> ClientView
    decreases payloads.len(),
{
    if payloads.len() == 0 {
        c
    } else {
        after_sends(c, payloads.drop_last()).send(payloads.last()).0
    }
}

/// The bodies of all frames that fell due while `payloads` were sent, back
/// to back.
pub open spec fn bodies_sent(c: ClientView, payloads: Seq<Seq<u8>>) -> Seq<u8>
    decreases payloads.len(),
{
    if payloads.len() == 0 {
        Seq::empty()
    } else {
        bodies_sent(c, payloads.drop_last()) + body_of(
            after_sends(c, payloads.drop_last()).send(payloads.last()).1,
        )
    }
}

/// A frame that falls due on a send is consistent when the staged payloads
/// and the one sent all have the same length, and that length fits in 32
/// bits: the header's payload size is that length, and the body is as long
/// as the header announces.
pub proof fn lemma_send_consistent(c: ClientView, data: Seq<u8>)
    requires
        c.inv(),
        c.uniform(data.len()),
        data.len() <= u32::MAX,
    ensures
        c.send(data).0.inv(),
        c.send(data).0.uniform(data.len()),
        c.send(data).1 matches Some(frame) ==> frame.header.size == data.len()
            && frame.header.batch_size == BATCH_SIZE && frame.consistent(),
{
    let size = data.len();
    let count = c.batch_count;
    assert((count + 1) * size == count * size + size) by (nonlinear_arith);
    assert(0 * size == 0) by (nonlinear_arith);
    if count + 1 >= BATCH_SIZE {
        let frame = c.send(data).1->0;
        assert(frame.header.size == size);
        assert(frame.header.batch_size == count + 1);
        assert(size * (count + 1) == (count + 1) * size) by (nonlinear_arith);
    }
}

/// A frame that a flush hands out is consistent when the staged payloads
/// all have the same length, and that length fits in 32 bits.
pub proof fn lemma_flush_consistent(c: ClientView, size: nat)
    requires
        c.inv(),
        c.uniform(size),
        size <= u32::MAX,
    ensures
        c.flush().1 is Some <==> c.batch_count > 0,
        c.flush().1 matches Some(frame) ==> frame.header.size == size && frame.header.batch_size
            == c.batch_count && frame.consistent(),
{
    let count = c.batch_count;
    if count > 0 {
        assert((count * size) / count == size && count * size == size * count)
            by (nonlinear_arith)
            requires
                count > 0,
        ;
    }
}

/// Nothing is lost and nothing reordered by batching: the bodies of the
/// frames that fell due, followed by what is still staged, are what was
/// staged at the start followed by the payloads sent, in order.
pub proof fn lemma_batching_keeps_order(c: ClientView, payloads: Seq<Seq<u8>>)
    requires
        c.inv(),
    ensures
        after_sends(c, payloads).inv(),
        bodies_sent(c, payloads) + after_sends(c, payloads).staged == c.staged
            + payloads.flatten(),
    decreases payloads.len(),
{
    if payloads.len() == 0 {
        assert(payloads.flatten() =~= Seq::<u8>::empty());
        assert(bodies_sent(c, payloads) + after_sends(c, payloads).staged =~= c.staged
            + payloads.flatten());
    } else {
        let head = payloads.drop_last();
        let last = payloads.last();
        lemma_batching_keeps_order(c, head);
        head.lemma_flatten_push(last);
        assert(head.push(last) =~= payloads);
        let before = after_sends(c, head);
        let sent = bodies_sent(c, head);
        assert((c.staged + head.flatten()) + last =~= c.staged + (head.flatten() + last));
        if before.batch_count + 1 >= BATCH_SIZE {
            assert((sent + (before.staged + last)) + Seq::<u8>::empty() =~= (sent
                + before.staged) + last);
        } else {
            assert((sent + Seq::<u8>::empty()) + (before.staged + last) =~= (sent
                + before.staged) + last);
        }
    }
}

} // verus!
