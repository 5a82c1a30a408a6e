use bytes::{Bytes, BytesMut};
use std::sync::Arc;
use streaming::batch::{RetainedMessageBatch, RETAINED_BATCH_OVERHEAD};
use streaming::error::Error;
use streaming::iterator::{check_batch, IntoBatchIterator, RetainedMessageBatchIterator};
use streaming::message::{Message, MessageState, RetainedMessage, RECORD_HEADER_SIZE};

fn message(id: u128, payload: &'static str, headers: Option<&'static str>) -> Message {
    Message::new(id, Bytes::from(payload), headers.map(Bytes::from))
}

fn retained(offset: u64, timestamp: u64, id: u128, payload: &'static str) -> RetainedMessage {
    RetainedMessage::new(offset, timestamp, &message(id, payload, None))
}

fn batch_of(messages: &[RetainedMessage]) -> Arc<RetainedMessageBatch> {
    let mut buffer = BytesMut::new();
    for m in messages {
        m.extend(&mut buffer);
    }
    Arc::new(
        RetainedMessageBatch::builder()
            .base_offset(messages[0].offset)
            .last_offset_delta(messages.len() as u32 - 1)
            .max_timestamp(messages[messages.len() - 1].timestamp)
            .length(buffer.len() as u32)
            .payload(buffer.freeze())
            .build()
            .unwrap(),
    )
}

fn collect(batch: Arc<RetainedMessageBatch>) -> Vec<RetainedMessage> {
    let mut iterator = batch.into_iter();
    let mut out = Vec::new();
    while let Some(m) = iterator.next() {
        out.push(m);
    }
    out
}

#[test]
fn retained_message_takes_the_checksum_of_its_payload() {
    let m = RetainedMessage::new(7, 11, &message(5, "hello", Some("hh")));
    assert_eq!(m.checksum, 0x3610a686);
    assert_eq!(m.offset, 7);
    assert_eq!(m.timestamp, 11);
    assert_eq!(m.id, 5);
    assert_eq!(m.message_state, MessageState::Available);
    assert_eq!(&m.payload[..], b"hello");
    assert_eq!(m.headers.as_deref(), Some(&b"hh"[..]));
    assert_eq!(m.get_size_bytes(), 4 + 41 + 5 + 2);
    assert_eq!(message(5, "hello", Some("hh")).get_size_bytes(), 16 + 4 + 5 + 2);
    assert_eq!(RECORD_HEADER_SIZE, 41);
}

#[test]
fn record_layout_is_little_endian_fields_then_payload_then_headers() {
    let m = RetainedMessage::new(1, 2, &message(3, "ab", Some("xyz")));
    let mut buffer = BytesMut::new();
    buffer.extend_from_slice(b"!");
    m.extend(&mut buffer);
    let mut expected: Vec<u8> = vec![b'!'];
    expected.extend_from_slice(&46u32.to_le_bytes());
    expected.extend_from_slice(&1u64.to_le_bytes());
    expected.push(1);
    expected.extend_from_slice(&2u64.to_le_bytes());
    expected.extend_from_slice(&3u128.to_le_bytes());
    expected.extend_from_slice(&0x9e83486du32.to_le_bytes());
    expected.extend_from_slice(&2u32.to_le_bytes());
    expected.extend_from_slice(b"ab");
    expected.extend_from_slice(b"xyz");
    assert_eq!(&buffer[..], &expected[..]);
}

#[test]
fn decoding_an_encoded_message_gives_it_back() {
    for (payload, headers) in [("", None), ("a", None), ("payload", Some("k=v")), ("x", Some(""))] {
        let m = RetainedMessage::new(u64::MAX, 12345, &message(u128::MAX - 1, payload, headers));
        let mut buffer = BytesMut::new();
        m.extend(&mut buffer);
        let bytes = buffer.freeze();
        let length = u32::from_le_bytes(bytes[..4].try_into().unwrap()) as usize;
        assert_eq!(length + 4, bytes.len());
        let decoded = RetainedMessage::try_from_bytes(bytes.slice(4..)).unwrap();
        assert_eq!(decoded.id, m.id);
        assert_eq!(decoded.offset, m.offset);
        assert_eq!(decoded.timestamp, m.timestamp);
        assert_eq!(decoded.checksum, m.checksum);
        assert_eq!(decoded.message_state, m.message_state);
        assert_eq!(decoded.payload, m.payload);
        assert_eq!(
            decoded.headers.clone().unwrap_or_default(),
            m.headers.clone().unwrap_or_default()
        );
    }
}

#[test]
fn a_body_that_does_not_decode_is_corrupted() {
    let m = retained(1, 2, 3, "payload");
    let mut buffer = BytesMut::new();
    m.extend(&mut buffer);
    let body = buffer.freeze().slice(4..);
    assert!(RetainedMessage::try_from_bytes(body.clone()).is_ok());
    // too short for the fixed fields
    assert!(matches!(
        RetainedMessage::try_from_bytes(body.slice(..40)),
        Err(Error::Corruption)
    ));
    // payload cut off
    assert!(matches!(
        RetainedMessage::try_from_bytes(body.slice(..45)),
        Err(Error::Corruption)
    ));
    // a state that there is not
    let mut bad_state = body.to_vec();
    bad_state[8] = 2;
    assert!(matches!(
        RetainedMessage::try_from_bytes(Bytes::from(bad_state)),
        Err(Error::Corruption)
    ));
    // a payload that does not go with the checksum
    let mut bad_payload = body.to_vec();
    bad_payload[41] ^= 1;
    assert!(matches!(
        RetainedMessage::try_from_bytes(Bytes::from(bad_payload)),
        Err(Error::Corruption)
    ));
    let mut bad_checksum = body.to_vec();
    bad_checksum[33] ^= 1;
    assert!(matches!(
        RetainedMessage::try_from_bytes(Bytes::from(bad_checksum)),
        Err(Error::Corruption)
    ));
}

#[test]
fn states_have_their_codes() {
    let states = [
        (MessageState::Available, 1u8),
        (MessageState::Unavailable, 10),
        (MessageState::Poisoned, 20),
        (MessageState::MarkedForDeletion, 30),
    ];
    for (state, code) in states {
        assert_eq!(state.as_code(), code);
        assert_eq!(MessageState::from_code(code), Ok(state));
    }
    assert_eq!(MessageState::from_code(0), Err(Error::Corruption));
    assert_eq!(MessageState::from_code(2), Err(Error::Corruption));
}

#[test]
fn decoding_an_encoded_batch_gives_its_messages_back() {
    let messages = vec![
        RetainedMessage::new(10, 100, &message(1, "a", None)),
        RetainedMessage::new(11, 100, &message(2, "bb", Some("h"))),
        RetainedMessage::new(12, 105, &message(3, "", None)),
    ];
    let batch = batch_of(&messages);
    assert_eq!(batch.base_offset, 10);
    assert_eq!(batch.get_last_offset(), 12);
    assert_eq!(batch.length as usize, batch.bytes.len());
    assert_eq!(batch.get_size_bytes(), 24 + batch.length as u64);
    assert_eq!(RETAINED_BATCH_OVERHEAD, 24);
    let decoded = collect(batch.clone());
    assert_eq!(decoded.len(), 3);
    for (d, m) in decoded.iter().zip(messages.iter()) {
        assert_eq!(d.id, m.id);
        assert_eq!(d.offset, m.offset);
        assert_eq!(d.timestamp, m.timestamp);
        assert_eq!(d.checksum, m.checksum);
        assert_eq!(d.payload, m.payload);
        assert_eq!(d.headers, m.headers);
    }
    assert_eq!(check_batch(&batch), Some(100));
}

#[test]
fn the_walk_hands_out_slices_of_the_batch() {
    let batch = batch_of(&[retained(0, 1, 1, "first"), retained(1, 2, 2, "second")]);
    let mut iterator = RetainedMessageBatchIterator::new(batch.clone());
    assert_eq!(iterator.remaining_bytes(), batch.length as usize);
    let first = iterator.next().unwrap();
    assert_eq!(&first.payload[..], b"first");
    let start = batch.bytes.as_ptr() as usize;
    let at = first.payload.as_ptr() as usize;
    assert!(start <= at && at < start + batch.bytes.len());
    assert_eq!(iterator.remaining_bytes(), 4 + 41 + 6);
    assert_eq!(&iterator.next().unwrap().payload[..], b"second");
    assert!(iterator.next().is_none());
    assert!(iterator.next().is_none());
    assert_eq!(iterator.remaining_bytes(), 0);
}

#[test]
fn the_walk_ends_at_a_broken_record() {
    let good = batch_of(&[retained(0, 1, 1, "one"), retained(1, 2, 2, "two"), retained(2, 3, 3, "six")]);
    let mut bytes = good.bytes.to_vec();
    // break the payload of the second record
    let second = 4 + 41 + 3;
    bytes[second + 4 + 41] ^= 0xff;
    let broken = Arc::new(RetainedMessageBatch::new(0, 2, 3, bytes.len() as u32, Bytes::from(bytes)));
    let mut iterator = broken.clone().into_iter();
    assert_eq!(iterator.next().unwrap().offset, 0);
    assert!(iterator.next().is_none());
    assert!(iterator.next().is_none());
    assert_eq!(check_batch(&broken), None);
    // a length that reaches behind the bytes, and one that ends within a record
    let long = Arc::new(RetainedMessageBatch::new(0, 2, 3, good.length + 10, good.bytes.clone()));
    assert_eq!(collect(long.clone()).len(), 3);
    assert_eq!(check_batch(&long), None);
    let short = Arc::new(RetainedMessageBatch::new(0, 2, 3, good.length - 1, good.bytes.clone()));
    assert_eq!(collect(short).len(), 2);
}

#[test]
fn a_batch_is_sound_only_if_its_header_goes_with_its_records() {
    let messages = [retained(5, 10, 1, "one"), retained(6, 10, 2, "two"), retained(7, 12, 3, "six")];
    let good = batch_of(&messages);
    assert_eq!(check_batch(&good), Some(10));
    let with = |base: u64, delta: u32, max: u64| {
        Arc::new(RetainedMessageBatch::new(base, delta, max, good.length, good.bytes.clone()))
    };
    assert_eq!(check_batch(&with(5, 2, 12)), Some(10));
    assert_eq!(check_batch(&with(4, 2, 12)), None);
    assert_eq!(check_batch(&with(5, 1, 12)), None);
    assert_eq!(check_batch(&with(5, 3, 12)), None);
    assert_eq!(check_batch(&with(5, 2, 13)), None);
    let back_in_time = batch_of(&[retained(5, 10, 1, "one"), retained(6, 9, 2, "two")]);
    assert_eq!(check_batch(&back_in_time), None);
    let gap = batch_of(&[retained(5, 10, 1, "one"), retained(7, 11, 2, "two")]);
    assert_eq!(check_batch(&gap), None);
}

#[test]
fn the_builder_reports_the_first_missing_field() {
    let payload = Bytes::from_static(b"");
    let built = RetainedMessageBatch::builder().build();
    assert!(matches!(built, Err(Error::MissingBaseOffsetRetainedMessageBatch)));
    let built = RetainedMessageBatch::builder().base_offset(1).build();
    assert!(matches!(built, Err(Error::MissingLastOffsetDeltaRetainedMessageBatch)));
    let built = RetainedMessageBatch::builder().base_offset(1).last_offset_delta(2).build();
    assert!(matches!(built, Err(Error::MissingMaxTimestampRetainedMessageBatch)));
    let built = RetainedMessageBatch::builder()
        .base_offset(1)
        .last_offset_delta(2)
        .max_timestamp(3)
        .payload(payload.clone())
        .build();
    assert!(matches!(built, Err(Error::MissingLengthRetainedMessageBatch)));
    let built = RetainedMessageBatch::builder()
        .base_offset(1)
        .last_offset_delta(2)
        .max_timestamp(3)
        .length(4)
        .build();
    assert!(matches!(built, Err(Error::MissingPayloadRetainedMessageBatch)));
    let built = RetainedMessageBatch::builder()
        .payload(payload)
        .length(4)
        .max_timestamp(3)
        .last_offset_delta(2)
        .base_offset(1)
        .build()
        .unwrap();
    assert_eq!(
        (built.base_offset, built.last_offset_delta, built.max_timestamp, built.length),
        (1, 2, 3, 4)
    );
}

#[test]
fn a_batch_stands_in_the_log_file_under_its_header() {
    let batch = batch_of(&[retained(258, 7, 1, "one")]);
    let mut buffer = BytesMut::new();
    batch.extend(&mut buffer);
    let mut expected: Vec<u8> = Vec::new();
    expected.extend_from_slice(&258u64.to_le_bytes());
    expected.extend_from_slice(&0u32.to_le_bytes());
    expected.extend_from_slice(&7u64.to_le_bytes());
    expected.extend_from_slice(&48u32.to_le_bytes());
    expected.extend_from_slice(&batch.bytes);
    assert_eq!(&buffer[..], &expected[..]);
}

#[test]
fn batches_overlap_ranges_that_reach_into_them() {
    let batch = batch_of(&[retained(10, 1, 1, "a"), retained(11, 2, 2, "b"), retained(12, 3, 3, "c")]);
    assert!(batch.is_contained_or_overlapping_within_offset_range(10, 12));
    assert!(batch.is_contained_or_overlapping_within_offset_range(0, 10));
    assert!(batch.is_contained_or_overlapping_within_offset_range(12, 100));
    assert!(batch.is_contained_or_overlapping_within_offset_range(11, 11));
    assert!(!batch.is_contained_or_overlapping_within_offset_range(0, 9));
    assert!(!batch.is_contained_or_overlapping_within_offset_range(13, 20));
    let last = RetainedMessageBatch::new(u64::MAX - 1, 5, 0, 0, Bytes::new());
    assert_eq!(last.get_last_offset(), u64::MAX);
}
