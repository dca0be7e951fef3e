use broker::net::client::BrokerClient;
use broker::net::message::{MessageHeader, ProcessedMessage};
use broker::net::server::{
    drain_batch, judge, Consumer, ConsumerStats, Ingress, IngressAction, IngressState,
    REPORT_EVERY,
};
use broker::{BrokerError, RingBuffer, BATCH_SIZE};

const NOW: u64 = 1_700_000_000_000_000_000;

fn valid_message(sequence: u64, len: usize) -> Vec<u8> {
    ProcessedMessage::new(NOW, sequence, vec![0u8; len - 20]).to_bytes()
}

fn started() -> Ingress {
    let mut ingress = Ingress::new();
    assert_eq!(ingress.accept(), IngressAction::ReadHeader);
    ingress
}

#[test]
fn ingress_starts_idle_and_asks_for_a_header() {
    let mut ingress = Ingress::new();
    assert_eq!(ingress.state(), IngressState::Idle);
    assert_eq!(ingress.accept(), IngressAction::ReadHeader);
    assert_eq!(ingress.state(), IngressState::ReadingHeader);
}

#[test]
fn second_accept_closes() {
    let mut ingress = started();
    assert_eq!(ingress.accept(), IngressAction::Close);
    assert_eq!(ingress.state(), IngressState::Shutdown);
}

#[test]
fn header_leads_to_the_body_it_announces() {
    let mut ingress = started();
    let header = MessageHeader { size: 1024, batch_size: 3 };
    assert_eq!(ingress.on_header(&header.to_bytes()), IngressAction::ReadBody { len: 3072 });
    assert_eq!(ingress.state(), IngressState::ReadingBody { header });
}

#[test]
fn header_without_payloads_closes() {
    for (size, batch) in [(0u32, 1u32), (1, 0), (0, 0)] {
        let mut ingress = started();
        let header = MessageHeader { size, batch_size: batch };
        assert_eq!(ingress.on_header(&header.to_bytes()), IngressAction::Close);
        assert_eq!(ingress.state(), IngressState::Shutdown);
    }
}

#[test]
fn header_of_wrong_length_closes() {
    for len in [0usize, 7, 9, 16] {
        let mut ingress = started();
        assert_eq!(ingress.on_header(&vec![1u8; len]), IngressAction::Close);
        assert_eq!(ingress.state(), IngressState::Shutdown);
    }
}

#[test]
fn header_before_accept_closes() {
    let mut ingress = Ingress::new();
    let header = MessageHeader { size: 4, batch_size: 1 };
    assert_eq!(ingress.on_header(&header.to_bytes()), IngressAction::Close);
    assert_eq!(ingress.state(), IngressState::Shutdown);
}

#[test]
fn shutdown_is_final() {
    let mut ring = RingBuffer::with_capacity(64).expect("ring");
    let mut ingress = started();
    assert_eq!(ingress.shutdown(), IngressAction::Close);
    assert_eq!(ingress.state(), IngressState::Shutdown);
    let header = MessageHeader { size: 4, batch_size: 1 };
    assert_eq!(ingress.accept(), IngressAction::Close);
    assert_eq!(ingress.on_header(&header.to_bytes()), IngressAction::Close);
    assert_eq!(ingress.on_body(&mut ring, &[1, 2, 3, 4]), IngressAction::Close);
    assert_eq!(ingress.on_retry(&mut ring, &[1, 2, 3, 4]), IngressAction::Close);
    assert_eq!(ingress.state(), IngressState::Shutdown);
    assert!(ring.is_empty());
}

#[test]
fn body_is_written_payload_by_payload() {
    let mut ring = RingBuffer::with_capacity(64).expect("ring");
    let mut ingress = started();
    let header = MessageHeader { size: 4, batch_size: 3 };
    let body: Vec<u8> = (1..=12u8).collect();
    assert_eq!(ingress.on_header(&header.to_bytes()), IngressAction::ReadBody { len: 12 });
    assert_eq!(ingress.on_body(&mut ring, &body), IngressAction::ReadHeader);
    assert_eq!(ingress.state(), IngressState::ReadingHeader);
    assert_eq!(ring.len(), 12);
    assert_eq!(ring.producer_index(), 12);
    let mut buf = [0u8; 4];
    for i in 0..3 {
        assert_eq!(ring.try_read(&mut buf), Ok(4));
        assert_eq!(&buf[..], &body[4 * i..4 * i + 4]);
    }
    assert_eq!(ring.try_read(&mut buf), Err(BrokerError::BufferEmpty));
}

#[test]
fn body_of_wrong_length_closes_and_writes_nothing() {
    let mut ring = RingBuffer::with_capacity(64).expect("ring");
    let mut ingress = started();
    let header = MessageHeader { size: 4, batch_size: 3 };
    assert_eq!(ingress.on_header(&header.to_bytes()), IngressAction::ReadBody { len: 12 });
    assert_eq!(ingress.on_body(&mut ring, &[0u8; 11]), IngressAction::Close);
    assert_eq!(ingress.state(), IngressState::Shutdown);
    assert!(ring.is_empty());
}

#[test]
fn body_that_was_not_due_closes() {
    let mut ring = RingBuffer::with_capacity(64).expect("ring");
    let mut ingress = started();
    assert_eq!(ingress.on_body(&mut ring, &[0u8; 4]), IngressAction::Close);
    assert_eq!(ingress.state(), IngressState::Shutdown);
    let mut ingress = started();
    assert_eq!(ingress.on_retry(&mut ring, &[0u8; 4]), IngressAction::Close);
    assert_eq!(ingress.state(), IngressState::Shutdown);
    assert!(ring.is_empty());
}

#[test]
fn payload_too_large_for_the_ring_closes() {
    let mut ring = RingBuffer::with_capacity(64).expect("ring");
    let mut ingress = started();
    let header = MessageHeader { size: 17, batch_size: 2 };
    assert_eq!(ingress.on_header(&header.to_bytes()), IngressAction::ReadBody { len: 34 });
    assert_eq!(ingress.on_body(&mut ring, &[0u8; 34]), IngressAction::Close);
    assert_eq!(ingress.state(), IngressState::Shutdown);
    assert!(ring.is_empty());
    assert_eq!(ring.producer_index(), 0);
}

#[test]
fn full_ring_makes_the_ingress_yield_and_retry() {
    let mut ring = RingBuffer::with_capacity(64).expect("ring");
    let mut ingress = started();
    let header = MessageHeader { size: 16, batch_size: 6 };
    let body: Vec<u8> = (0..96u8).collect();
    assert_eq!(ingress.on_header(&header.to_bytes()), IngressAction::ReadBody { len: 96 });
    assert_eq!(ingress.on_body(&mut ring, &body), IngressAction::Yield);
    assert_eq!(ingress.state(), IngressState::Enqueuing { header, next: 4 });
    assert_eq!(ring.len(), 64);
    assert_eq!(ingress.on_retry(&mut ring, &body), IngressAction::Yield);
    assert_eq!(ingress.state(), IngressState::Enqueuing { header, next: 4 });
    let mut buf = [0u8; 16];
    assert_eq!(ring.try_read(&mut buf), Ok(16));
    assert_eq!(&buf[..], &body[..16]);
    assert_eq!(ingress.on_retry(&mut ring, &body), IngressAction::Yield);
    assert_eq!(ingress.state(), IngressState::Enqueuing { header, next: 5 });
    assert_eq!(ring.try_read(&mut buf), Ok(16));
    assert_eq!(&buf[..], &body[16..32]);
    assert_eq!(ingress.on_retry(&mut ring, &body), IngressAction::ReadHeader);
    assert_eq!(ingress.state(), IngressState::ReadingHeader);
    for i in 2..6 {
        assert_eq!(ring.try_read(&mut buf), Ok(16));
        assert_eq!(&buf[..], &body[16 * i..16 * i + 16]);
    }
    assert!(ring.is_empty());
}

#[test]
fn retry_with_another_body_closes() {
    let mut ring = RingBuffer::with_capacity(64).expect("ring");
    let mut ingress = started();
    let header = MessageHeader { size: 16, batch_size: 6 };
    assert_eq!(ingress.on_header(&header.to_bytes()), IngressAction::ReadBody { len: 96 });
    assert_eq!(ingress.on_body(&mut ring, &[0u8; 96]), IngressAction::Yield);
    assert_eq!(ingress.on_retry(&mut ring, &[0u8; 95]), IngressAction::Close);
    assert_eq!(ingress.state(), IngressState::Shutdown);
    assert_eq!(ring.len(), 64);
}

#[test]
fn backpressure_delivers_everything_in_order() {
    let mut ring = RingBuffer::with_capacity(64 * 1024).expect("ring");
    let mut ingress = started();
    let total = 10_000usize;
    let per_frame = 1000usize;
    let mut delivered = 0usize;
    let mut yields = 0usize;
    let mut buf = vec![0u8; 1024];
    for frame in 0..total / per_frame {
        let header = MessageHeader { size: 1024, batch_size: per_frame as u32 };
        let mut body = Vec::with_capacity(1024 * per_frame);
        for i in 0..per_frame {
            let number = (frame * per_frame + i) as u64;
            let mut payload = vec![(number % 251) as u8; 1024];
            payload[..8].copy_from_slice(&number.to_le_bytes());
            body.extend_from_slice(&payload);
        }
        assert_eq!(
            ingress.on_header(&header.to_bytes()),
            IngressAction::ReadBody { len: 1024 * per_frame }
        );
        let mut action = ingress.on_body(&mut ring, &body);
        while action == IngressAction::Yield {
            yields += 1;
            assert_eq!(ring.len(), 64 * 1024);
            while let Ok(n) = ring.try_read(&mut buf) {
                assert_eq!(n, 1024);
                let number = u64::from_le_bytes(buf[..8].try_into().unwrap());
                assert_eq!(number, delivered as u64);
                assert!(buf[8..].iter().all(|b| *b == (number % 251) as u8));
                delivered += 1;
            }
            action = ingress.on_retry(&mut ring, &body);
        }
        assert_eq!(action, IngressAction::ReadHeader);
    }
    while let Ok(n) = ring.try_read(&mut buf) {
        assert_eq!(n, 1024);
        let number = u64::from_le_bytes(buf[..8].try_into().unwrap());
        assert_eq!(number, delivered as u64);
        delivered += 1;
    }
    assert_eq!(delivered, total);
    assert!(yields >= total / 64 - 1);
}

#[test]
fn stats_count_each_chunk_once() {
    let mut stats = ConsumerStats::new();
    assert_eq!(stats, ConsumerStats { consumed: 0, processed: 0, errors: 0 });
    stats.count(true);
    stats.count(false);
    stats.count(true);
    assert_eq!(stats, ConsumerStats { consumed: 3, processed: 2, errors: 1 });
}

#[test]
fn stats_wrap_at_the_end_of_the_counter() {
    let mut stats = ConsumerStats { consumed: u64::MAX, processed: u64::MAX, errors: 3 };
    stats.count(true);
    assert_eq!(stats, ConsumerStats { consumed: 0, processed: 0, errors: 3 });
}

#[test]
fn report_is_due_every_million_chunks() {
    assert_eq!(REPORT_EVERY, 1_000_000);
    let due = |consumed: u64| ConsumerStats { consumed, processed: 0, errors: 0 }.is_report_due();
    assert!(!due(0));
    assert!(!due(1));
    assert!(!due(999_999));
    assert!(due(1_000_000));
    assert!(!due(1_000_001));
    assert!(due(2_000_000));
}

#[test]
fn judge_accepts_intact_fresh_messages_only() {
    let bytes = valid_message(1, 64);
    assert!(judge(&bytes, Some(NOW)));
    assert!(judge(&bytes, Some(NOW + 1_000_000_000)));
    assert!(!judge(&bytes, Some(NOW + 1_000_000_001)));
    assert!(!judge(&bytes[..19], Some(NOW)));
    assert!(!judge(&[1u8; 1024], Some(NOW)));
    let mut broken = bytes.clone();
    broken[16] ^= 0x01;
    assert!(!judge(&broken, Some(NOW)));
    assert!(!judge(&bytes, None));
    assert!(!judge(&broken, None));
}

#[test]
fn drain_of_an_empty_ring_does_nothing() {
    let mut ring = RingBuffer::with_capacity(64).expect("ring");
    let mut scratch = vec![9u8; 32];
    let mut stats = ConsumerStats::new();
    assert_eq!(drain_batch(&mut ring, &mut scratch, &mut stats, 16, Some(NOW)), 0);
    assert_eq!(stats, ConsumerStats { consumed: 0, processed: 0, errors: 0 });
    assert_eq!(scratch, vec![9u8; 32]);
}

#[test]
fn drain_of_payloads_without_bytes_does_nothing() {
    let mut ring = RingBuffer::with_capacity(64).expect("ring");
    assert_eq!(ring.try_write(&[1, 2, 3]), Ok(()));
    let mut scratch = vec![9u8; 32];
    let mut stats = ConsumerStats::new();
    assert_eq!(drain_batch(&mut ring, &mut scratch, &mut stats, 0, Some(NOW)), 0);
    assert_eq!(stats, ConsumerStats { consumed: 0, processed: 0, errors: 0 });
    assert_eq!(scratch, vec![9u8; 32]);
    assert_eq!(ring.len(), 3);
}

#[test]
fn single_valid_message_is_processed() {
    let mut ring = RingBuffer::with_capacity(4096).expect("ring");
    let mut ingress = started();
    let message = valid_message(0, 1024);
    let header = MessageHeader { size: 1024, batch_size: 1 };
    assert_eq!(ingress.on_header(&header.to_bytes()), IngressAction::ReadBody { len: 1024 });
    assert_eq!(ingress.on_body(&mut ring, &message), IngressAction::ReadHeader);
    let mut scratch = vec![0u8; 8192];
    let mut stats = ConsumerStats::new();
    assert_eq!(drain_batch(&mut ring, &mut scratch, &mut stats, 1024, Some(NOW)), 1024);
    assert_eq!(stats, ConsumerStats { consumed: 1, processed: 1, errors: 0 });
    assert_eq!(&scratch[..1024], &message[..]);
    assert!(scratch[1024..].iter().all(|b| *b == 0));
    assert!(ring.is_empty());
}

#[test]
fn single_invalid_message_is_an_error() {
    let mut ring = RingBuffer::with_capacity(4096).expect("ring");
    let mut ingress = started();
    let header = MessageHeader { size: 1024, batch_size: 1 };
    assert_eq!(ingress.on_header(&header.to_bytes()), IngressAction::ReadBody { len: 1024 });
    assert_eq!(ingress.on_body(&mut ring, &[1u8; 1024]), IngressAction::ReadHeader);
    let mut scratch = vec![0u8; 8192];
    let mut stats = ConsumerStats::new();
    assert_eq!(drain_batch(&mut ring, &mut scratch, &mut stats, 1024, Some(NOW)), 1024);
    assert_eq!(stats, ConsumerStats { consumed: 1, processed: 0, errors: 1 });
}

#[test]
fn failed_checksum_is_counted_as_an_error() {
    let mut ring = RingBuffer::with_capacity(4096).expect("ring");
    let mut message = valid_message(5, 128);
    message[16] ^= 0x01;
    assert_eq!(ring.try_write(&message), Ok(()));
    let mut scratch = vec![0u8; 256];
    let mut stats = ConsumerStats::new();
    assert_eq!(drain_batch(&mut ring, &mut scratch, &mut stats, 128, Some(NOW)), 128);
    assert_eq!(stats, ConsumerStats { consumed: 1, processed: 0, errors: 1 });
}

#[test]
fn stale_message_is_counted_as_an_error() {
    let mut ring = RingBuffer::with_capacity(4096).expect("ring");
    let message = valid_message(5, 128);
    assert_eq!(ring.try_write(&message), Ok(()));
    let mut scratch = vec![0u8; 256];
    let mut stats = ConsumerStats::new();
    let later = NOW + 2_000_000_000;
    assert_eq!(drain_batch(&mut ring, &mut scratch, &mut stats, 128, Some(later)), 128);
    assert_eq!(stats, ConsumerStats { consumed: 1, processed: 0, errors: 1 });
    assert_eq!(ring.try_write(&message), Ok(()));
    assert_eq!(drain_batch(&mut ring, &mut scratch, &mut stats, 128, None), 128);
    assert_eq!(stats, ConsumerStats { consumed: 2, processed: 0, errors: 2 });
}

#[test]
fn whole_batch_in_the_ring_is_processed_payload_by_payload() {
    let mut ring = RingBuffer::with_capacity(4 * 1024 * 1024).expect("ring");
    let mut client = BrokerClient::new();
    let mut ingress = started();
    let mut frames = Vec::new();
    for sequence in 0..1024u64 {
        if let Some(frame) = client.send(&valid_message(sequence, 1024)) {
            frames.push(frame);
        }
    }
    assert_eq!(frames.len(), 1);
    let frame = &frames[0];
    assert_eq!(frame.header, MessageHeader { size: 1024, batch_size: 1024 });
    assert_eq!(frame.body.len(), 1024 * 1024);
    assert_eq!(
        ingress.on_header(&frame.header.to_bytes()),
        IngressAction::ReadBody { len: 1024 * 1024 }
    );
    assert_eq!(ingress.on_body(&mut ring, &frame.body), IngressAction::ReadHeader);
    assert_eq!(ring.len(), 1024 * 1024);
    let mut consumer = Consumer::new();
    let size = frame.header.size() as usize;
    assert_eq!(consumer.run_batch(&mut ring, size, Some(NOW)), 1024 * 1024);
    assert_eq!(consumer.stats(), ConsumerStats { consumed: 1024, processed: 1024, errors: 0 });
    assert!(ring.is_empty());
    assert_eq!(consumer.run_batch(&mut ring, size, Some(NOW)), 0);
    assert_eq!(consumer.stats(), ConsumerStats { consumed: 1024, processed: 1024, errors: 0 });
}

#[test]
fn batch_of_messages_is_processed_one_write_at_a_time() {
    let mut ring = RingBuffer::with_capacity(64 * 1024).expect("ring");
    let mut consumer = Consumer::with_scratch(4096);
    for sequence in 0..1024u64 {
        assert_eq!(ring.try_write(&valid_message(sequence, 1024)), Ok(()));
        assert_eq!(consumer.run_batch(&mut ring, 1024, Some(NOW)), 1024);
    }
    assert_eq!(consumer.stats(), ConsumerStats { consumed: 1024, processed: 1024, errors: 0 });
    assert!(ring.is_empty());
}

#[test]
fn two_connections_in_a_row_are_both_drained() {
    let mut ring = RingBuffer::with_capacity(4 * 1024 * 1024).expect("ring");
    let mut total = ConsumerStats::new();
    for connection in 0..2u64 {
        let mut ingress = started();
        let mut consumer = Consumer::with_scratch(2 * 1024 * 1024);
        let mut body = Vec::new();
        for i in 0..1024u64 {
            body.extend_from_slice(&valid_message(connection * 1024 + i, 1024));
        }
        let header = MessageHeader { size: 1024, batch_size: 1024 };
        assert_eq!(
            ingress.on_header(&header.to_bytes()),
            IngressAction::ReadBody { len: 1024 * 1024 }
        );
        assert_eq!(ingress.on_body(&mut ring, &body), IngressAction::ReadHeader);
        assert_eq!(consumer.run_batch(&mut ring, 1024, Some(NOW)), 1024 * 1024);
        assert_eq!(ingress.shutdown(), IngressAction::Close);
        let stats = consumer.stats();
        assert_eq!(stats, ConsumerStats { consumed: 1024, processed: 1024, errors: 0 });
        total.consumed += stats.consumed;
        total.processed += stats.processed;
        total.errors += stats.errors;
    }
    assert_eq!(total, ConsumerStats { consumed: 2048, processed: 2048, errors: 0 });
    assert!(ring.is_empty());
}

#[test]
fn several_writes_are_judged_one_payload_each() {
    let mut ring = RingBuffer::with_capacity(4096).expect("ring");
    let first = valid_message(1, 64);
    let mut second = valid_message(2, 64);
    second[16] ^= 0x01;
    let third = valid_message(3, 64);
    assert_eq!(ring.try_write(&first), Ok(()));
    assert_eq!(ring.try_write(&second), Ok(()));
    assert_eq!(ring.try_write(&third), Ok(()));
    let mut scratch = vec![0u8; 1024];
    let mut stats = ConsumerStats::new();
    assert_eq!(drain_batch(&mut ring, &mut scratch, &mut stats, 64, Some(NOW)), 192);
    assert_eq!(stats, ConsumerStats { consumed: 3, processed: 2, errors: 1 });
    assert_eq!(&scratch[..64], &first[..]);
    assert_eq!(&scratch[64..128], &second[..]);
    assert_eq!(&scratch[128..192], &third[..]);
    assert!(scratch[192..].iter().all(|b| *b == 0));
    assert!(ring.is_empty());
}

#[test]
fn scratch_takes_whole_payloads_only() {
    let mut ring = RingBuffer::with_capacity(4096).expect("ring");
    for i in 0..3u64 {
        assert_eq!(ring.try_write(&valid_message(i, 64)), Ok(()));
    }
    let mut scratch = vec![0u8; 150];
    let mut stats = ConsumerStats::new();
    assert_eq!(drain_batch(&mut ring, &mut scratch, &mut stats, 64, Some(NOW)), 128);
    assert_eq!(stats, ConsumerStats { consumed: 2, processed: 2, errors: 0 });
    assert_eq!(ring.len(), 64);
    assert_eq!(drain_batch(&mut ring, &mut scratch, &mut stats, 64, Some(NOW)), 64);
    assert_eq!(stats, ConsumerStats { consumed: 3, processed: 3, errors: 0 });
    assert_eq!(&scratch[..64], &valid_message(2, 64)[..]);
    assert!(ring.is_empty());
}

#[test]
fn scratch_of_one_payload_takes_one_payload() {
    let mut ring = RingBuffer::with_capacity(4096).expect("ring");
    let first = valid_message(1, 64);
    let second = valid_message(2, 64);
    assert_eq!(ring.try_write(&first), Ok(()));
    assert_eq!(ring.try_write(&second), Ok(()));
    let mut scratch = vec![0u8; 64];
    let mut stats = ConsumerStats::new();
    assert_eq!(drain_batch(&mut ring, &mut scratch, &mut stats, 64, Some(NOW)), 64);
    assert_eq!(stats, ConsumerStats { consumed: 1, processed: 1, errors: 0 });
    assert_eq!(&scratch[..], &first[..]);
    assert_eq!(ring.len(), 64);
    assert_eq!(drain_batch(&mut ring, &mut scratch, &mut stats, 64, Some(NOW)), 64);
    assert_eq!(stats, ConsumerStats { consumed: 2, processed: 2, errors: 0 });
    assert_eq!(&scratch[..], &second[..]);
}

#[test]
fn scratch_smaller_than_a_payload_takes_nothing() {
    let mut ring = RingBuffer::with_capacity(4096).expect("ring");
    assert_eq!(ring.try_write(&valid_message(1, 64)), Ok(()));
    let mut scratch = vec![7u8; 40];
    let mut stats = ConsumerStats::new();
    assert_eq!(drain_batch(&mut ring, &mut scratch, &mut stats, 64, Some(NOW)), 0);
    assert_eq!(stats, ConsumerStats { consumed: 0, processed: 0, errors: 0 });
    assert_eq!(scratch, vec![7u8; 40]);
    assert_eq!(ring.len(), 64);
}

#[test]
fn payload_cut_short_is_read_last_and_is_an_error() {
    let mut ring = RingBuffer::with_capacity(4096).expect("ring");
    let first = valid_message(1, 64);
    let second = valid_message(2, 64);
    assert_eq!(ring.try_write(&first), Ok(()));
    assert_eq!(ring.try_write(&second[..36]), Ok(()));
    let mut scratch = vec![0u8; 1024];
    let mut stats = ConsumerStats::new();
    assert_eq!(drain_batch(&mut ring, &mut scratch, &mut stats, 64, Some(NOW)), 100);
    assert_eq!(stats, ConsumerStats { consumed: 2, processed: 1, errors: 1 });
    assert_eq!(&scratch[..64], &first[..]);
    assert_eq!(&scratch[64..100], &second[..36]);
    assert!(ring.is_empty());
}

#[test]
fn batch_stops_after_the_batch_size() {
    let mut ring = RingBuffer::with_capacity(64 * 1024).expect("ring");
    for i in 0..1100u64 {
        assert_eq!(ring.try_write(&valid_message(i, 20)), Ok(()));
    }
    let mut scratch = vec![0u8; 64 * 1024];
    let mut stats = ConsumerStats::new();
    assert_eq!(BATCH_SIZE, 1024);
    assert_eq!(drain_batch(&mut ring, &mut scratch, &mut stats, 20, Some(NOW)), 1024 * 20);
    assert_eq!(stats, ConsumerStats { consumed: 1024, processed: 1024, errors: 0 });
    assert_eq!(ring.len(), 76 * 20);
    assert_eq!(drain_batch(&mut ring, &mut scratch, &mut stats, 20, Some(NOW)), 76 * 20);
    assert_eq!(stats, ConsumerStats { consumed: 1100, processed: 1100, errors: 0 });
    assert_eq!(&scratch[..20], &valid_message(1024, 20)[..]);
    assert!(ring.is_empty());
}

#[test]
fn payloads_read_with_another_size_do_not_parse() {
    let mut ring = RingBuffer::with_capacity(4096).expect("ring");
    assert_eq!(ring.try_write(&valid_message(1, 64)), Ok(()));
    assert_eq!(ring.try_write(&valid_message(2, 64)), Ok(()));
    let mut scratch = vec![0u8; 1024];
    let mut stats = ConsumerStats::new();
    assert_eq!(drain_batch(&mut ring, &mut scratch, &mut stats, 32, Some(NOW)), 128);
    assert_eq!(stats, ConsumerStats { consumed: 4, processed: 0, errors: 4 });
}

#[test]
fn consumer_uses_its_scratch_spaces_in_turn() {
    let mut ring = RingBuffer::with_capacity(4096).expect("ring");
    let mut consumer = Consumer::with_scratch(256);
    assert_eq!(consumer.stats(), ConsumerStats { consumed: 0, processed: 0, errors: 0 });
    assert_eq!(consumer.run_batch(&mut ring, 100, Some(NOW)), 0);
    for i in 0..5u64 {
        assert_eq!(ring.try_write(&valid_message(i, 100)), Ok(()));
        assert_eq!(consumer.run_batch(&mut ring, 100, Some(NOW)), 100);
    }
    assert_eq!(consumer.stats(), ConsumerStats { consumed: 5, processed: 5, errors: 0 });
}

#[test]
fn default_consumer_starts_with_zero_counts() {
    let mut ring = RingBuffer::with_capacity(4096).expect("ring");
    let mut consumer = Consumer::new();
    assert_eq!(ring.try_write(&valid_message(3, 1024)), Ok(()));
    assert_eq!(consumer.run_batch(&mut ring, 1024, Some(NOW)), 1024);
    assert_eq!(consumer.stats(), ConsumerStats { consumed: 1, processed: 1, errors: 0 });
}

#[test]
fn payloads_travel_from_client_to_reader_in_order() {
    let mut ring = RingBuffer::with_capacity(64 * 1024).expect("ring");
    let mut client = BrokerClient::new();
    let mut ingress = started();
    let mut expected = Vec::new();
    let mut frames = Vec::new();
    for sequence in 0..1500u64 {
        let message = valid_message(sequence, 40);
        expected.push(message.clone());
        if let Some(frame) = client.send(&message) {
            frames.push(frame.to_bytes());
        }
    }
    if let Some(frame) = client.flush() {
        frames.push(frame.to_bytes());
    }
    assert_eq!(frames.len(), 2);
    let mut received = Vec::new();
    let mut buf = [0u8; 40];
    for wire in &frames {
        let len = match ingress.on_header(&wire[..8]) {
            IngressAction::ReadBody { len } => len,
            other => panic!("{:?}", other),
        };
        assert_eq!(len, wire.len() - 8);
        let mut action = ingress.on_body(&mut ring, &wire[8..]);
        loop {
            while let Ok(n) = ring.try_read(&mut buf) {
                assert_eq!(n, 40);
                let message = ProcessedMessage::from_bytes(&buf).expect("intact");
                assert_eq!(message.sequence, received.len() as u64);
                assert!(message.process_at(NOW));
                received.push(buf.to_vec());
            }
            if action != IngressAction::Yield {
                break;
            }
            action = ingress.on_retry(&mut ring, &wire[8..]);
        }
        assert_eq!(action, IngressAction::ReadHeader);
    }
    assert_eq!(received, expected);
}

#[test]
fn consumer_keeps_up_with_a_full_ring() {
    let mut ring = RingBuffer::with_capacity(64 * 1024).expect("ring");
    let mut ingress = started();
    let mut consumer = Consumer::with_scratch(128 * 1024);
    let per_frame = 1000usize;
    let mut yields = 0usize;
    for frame in 0..10usize {
        let header = MessageHeader { size: 1024, batch_size: per_frame as u32 };
        let mut body = Vec::with_capacity(1024 * per_frame);
        for i in 0..per_frame {
            body.extend_from_slice(&valid_message((frame * per_frame + i) as u64, 1024));
        }
        assert_eq!(
            ingress.on_header(&header.to_bytes()),
            IngressAction::ReadBody { len: 1024 * per_frame }
        );
        let mut action = ingress.on_body(&mut ring, &body);
        while action == IngressAction::Yield {
            yields += 1;
            assert_eq!(consumer.run_batch(&mut ring, 1024, Some(NOW)), 64 * 1024);
            action = ingress.on_retry(&mut ring, &body);
        }
        assert_eq!(action, IngressAction::ReadHeader);
    }
    while consumer.run_batch(&mut ring, 1024, Some(NOW)) > 0 {}
    assert!(ring.is_empty());
    assert!(yields > 100);
    assert_eq!(
        consumer.stats(),
        ConsumerStats { consumed: 10_000, processed: 10_000, errors: 0 }
    );
}
