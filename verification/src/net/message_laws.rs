//! What follows from the message and header formats: encoding and parsing
//! undo each other, and a changed byte does not go unnoticed.

use vstd::prelude::*;
use vstd::bytes::{
    lemma_auto_spec_u32_to_from_le_bytes, lemma_auto_spec_u64_to_from_le_bytes,
    spec_u32_from_le_bytes, spec_u32_to_le_bytes, spec_u64_from_le_bytes, spec_u64_to_le_bytes,
};
use crate::net::message::{MessageHeader, MessageView};

verus! {

/// The three fixed-width fields of an encoded message sit where the format
/// puts them, and the payload follows.
pub proof fn lemma_encode_layout(m: MessageView)
    ensures
        m.encode().len() == 20 + m.payload.len(),
        m.encode().subrange(0, 8) == spec_u64_to_le_bytes(m.timestamp),
        m.encode().subrange(8, 16) == spec_u64_to_le_bytes(m.sequence),
        m.encode().subrange(16, 20) == spec_u32_to_le_bytes(m.checksum),
        m.encode().skip(20) == m.payload,
        MessageView::fields(m.encode()) == m,
{
    lemma_auto_spec_u64_to_from_le_bytes();
    lemma_auto_spec_u32_to_from_le_bytes();
    let e = m.encode();
    assert(e.subrange(0, 8) =~= spec_u64_to_le_bytes(m.timestamp));
    assert(e.subrange(8, 16) =~= spec_u64_to_le_bytes(m.sequence));
    assert(e.subrange(16, 20) =~= spec_u32_to_le_bytes(m.checksum));
    assert(e.skip(20) =~= m.payload);
    assert(MessageView::fields(e) =~= m);
}

/// A message whose checksum fits is parsed back from its encoding, field
/// for field.
pub proof fn lemma_parse_encode(m: MessageView)
    requires
        m.intact(),
    ensures
        MessageView::parse(m.encode()) == Some(m),
{
    lemma_encode_layout(m);
}

/// A message whose checksum does not fit is refused.
pub proof fn lemma_parse_refuses_bad_checksum(m: MessageView)
    requires
        !m.intact(),
    ensures
        MessageView::parse(m.encode()) is None,
{
    lemma_encode_layout(m);
}

/// Bytes parse to a message only if they are that message's encoding: no
/// other bytes are taken for it.
pub proof fn lemma_parse_is_decoding(bytes: Seq<u8>, m: MessageView)
    requires
        MessageView::parse(bytes) == Some(m),
    ensures
        bytes == m.encode(),
        m.intact(),
{
    lemma_auto_spec_u64_to_from_le_bytes();
    lemma_auto_spec_u32_to_from_le_bytes();
    let a = bytes.subrange(0, 8);
    let b = bytes.subrange(8, 16);
    let c = bytes.subrange(16, 20);
    assert(spec_u64_to_le_bytes(spec_u64_from_le_bytes(a)) == a);
    assert(spec_u64_to_le_bytes(spec_u64_from_le_bytes(b)) == b);
    assert(spec_u32_to_le_bytes(spec_u32_from_le_bytes(c)) == c);
    assert(bytes =~= a + b + c + bytes.skip(20));
}

/// Changing any byte of an encoded message never yields the same message
/// again: the changed bytes are refused, or parse to a different message.
pub proof fn lemma_tamper_changes_message(m: MessageView, i: int, b: u8)
    requires
        m.intact(),
        0 <= i < m.encode().len(),
        b != m.encode()[i],
    ensures
        MessageView::parse(m.encode().update(i, b)) != Some(m),
{
    let t = m.encode().update(i, b);
    if MessageView::parse(t) == Some(m) {
        lemma_parse_is_decoding(t, m);
        assert(t[i] == b);
    }
}

/// Changing a byte of the checksum field of an encoded message makes it
/// unparsable.
pub proof fn lemma_tamper_checksum_refused(m: MessageView, i: int, b: u8)
    requires
        m.intact(),
        16 <= i < 20,
        b != m.encode()[i],
    ensures
        MessageView::parse(m.encode().update(i, b)) is None,
{
    lemma_encode_layout(m);
    lemma_auto_spec_u32_to_from_le_bytes();
    let e = m.encode();
    let t = e.update(i, b);
    let f = MessageView::fields(t);
    assert(t.subrange(0, 8) =~= e.subrange(0, 8));
    assert(t.subrange(8, 16) =~= e.subrange(8, 16));
    assert(t.skip(20) =~= e.skip(20));
    let c = t.subrange(16, 20);
    assert(c[i - 16] == b);
    assert(e.subrange(16, 20)[i - 16] == e[i]);
    if f.checksum == m.checksum {
        assert(spec_u32_to_le_bytes(spec_u32_from_le_bytes(c)) == c);
        assert(c == spec_u32_to_le_bytes(m.checksum));
    }
}

/// Changing a byte outside the checksum field of an encoded message makes
/// it unparsable unless the changed contents happen to have the checksum
/// that the message carried.
pub proof fn lemma_tamper_content_refused(m: MessageView, i: int, b: u8)
    requires
        m.intact(),
        0 <= i < m.encode().len(),
        !(16 <= i < 20),
        b != m.encode()[i],
    ensures
        ({
            let f = MessageView::fields(m.encode().update(i, b));
            &&& f.checksum == m.checksum
            &&& (f.timestamp, f.sequence, f.payload) != (m.timestamp, m.sequence, m.payload)
            &&& MessageView::parse(m.encode().update(i, b)) is Some <==> f.intact()
        }),
{
    lemma_encode_layout(m);
    let e = m.encode();
    let t = e.update(i, b);
    let f = MessageView::fields(t);
    assert(t.subrange(16, 20) =~= e.subrange(16, 20));
    lemma_tamper_changes_message(m, i, b);
    if (f.timestamp, f.sequence, f.payload) == (m.timestamp, m.sequence, m.payload) {
        assert(f =~= m);
    }
}

/// A header is read back from its eight bytes, and eight bytes are the
/// encoding of the header read from them.
pub proof fn lemma_header_round_trip(h: MessageHeader, bytes: Seq<u8>)
    ensures
        h.encode().len() == 8,
        MessageHeader::decode(h.encode()) == Some(h),
        bytes.len() == 8 ==> MessageHeader::decode(bytes)->0.encode() == bytes,
{
    lemma_auto_spec_u32_to_from_le_bytes();
    let e = h.encode();
    assert(e.subrange(0, 4) =~= spec_u32_to_le_bytes(h.size));
    assert(e.subrange(4, 8) =~= spec_u32_to_le_bytes(h.batch_size));
    if bytes.len() == 8 {
        let a = bytes.subrange(0, 4);
        let b = bytes.subrange(4, 8);
        assert(spec_u32_to_le_bytes(spec_u32_from_le_bytes(a)) == a);
        assert(spec_u32_to_le_bytes(spec_u32_from_le_bytes(b)) == b);
        assert(bytes =~= a + b);
    }
}

} // verus!
