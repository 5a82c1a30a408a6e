use bytes::{Bytes, BytesMut};
use std::sync::Arc;
use streaming::batch::RetainedMessageBatch;
use streaming::error::Error;
use streaming::index::{Index, TimeIndex};
use streaming::message::{Message, RetainedMessage};
use streaming::segment::Segment;

fn sound_batch(base_offset: u64, count: u32, first_timestamp: u64) -> Arc<RetainedMessageBatch> {
    let mut buffer = BytesMut::new();
    for i in 0..count as u64 {
        let message = Message::new((base_offset + i) as u128, Bytes::from("payload"), None);
        RetainedMessage::new(base_offset + i, first_timestamp + i, &message).extend(&mut buffer);
    }
    Arc::new(
        RetainedMessageBatch::builder()
            .base_offset(base_offset)
            .last_offset_delta(count - 1)
            .max_timestamp(first_timestamp + count as u64 - 1)
            .length(buffer.len() as u32)
            .payload(buffer.freeze())
            .build()
            .unwrap(),
    )
}

fn offsets(messages: &Vec<RetainedMessage>) -> Vec<u64> {
    messages.iter().map(|m| m.offset).collect()
}

// A batch of n messages with seven bytes of payload takes 24 + 52 n bytes.
fn filled(start_offset: u64, max_size: u32) -> Segment {
    let mut segment = Segment::create(start_offset, max_size);
    segment.append_batch(sound_batch(start_offset, 3, 1000));
    segment.append_batch(sound_batch(start_offset + 3, 1, 1003));
    segment.persist_messages();
    segment.append_batch(sound_batch(start_offset + 4, 5, 1003));
    segment.append_batch(sound_batch(start_offset + 9, 2, 1010));
    segment
}

#[test]
fn a_new_segment_is_empty_and_open() {
    let segment = Segment::create(40, 1000);
    assert_eq!(segment.start_offset(), 40);
    assert_eq!(segment.current_offset(), 40);
    assert_eq!(segment.end_offset(), 40);
    assert_eq!(segment.size_bytes(), 0);
    assert!(segment.is_empty());
    assert!(!segment.is_closed());
    assert!(!segment.is_full());
    assert!(segment.log_file().is_empty());
    assert!(segment.get_messages(40, 10).is_empty());
    assert!(segment.get_all_batches().is_empty());
    assert!(segment.get_newest_message_batches_by_size(1000).is_empty());
}

#[test]
fn appending_moves_the_offsets_the_size_and_the_indexes() {
    let segment = filled(100, 10_000);
    assert_eq!(segment.start_offset(), 100);
    assert_eq!(segment.current_offset(), 110);
    assert_eq!(segment.end_offset(), 110);
    assert_eq!(segment.size_bytes(), 4 * 24 + 11 * 52);
    assert!(!segment.is_empty());
    assert_eq!(
        segment.indexes(),
        &vec![
            Index { relative_offset: 0, position: 0 },
            Index { relative_offset: 3, position: 180 },
            Index { relative_offset: 4, position: 256 },
            Index { relative_offset: 9, position: 540 },
        ]
    );
    assert_eq!(
        segment.time_indexes(),
        &vec![
            TimeIndex { relative_offset: 2, timestamp: 1002 },
            TimeIndex { relative_offset: 3, timestamp: 1003 },
            TimeIndex { relative_offset: 8, timestamp: 1007 },
            TimeIndex { relative_offset: 10, timestamp: 1011 },
        ]
    );
    assert_eq!(segment.log_file().len(), 256);
}

#[test]
fn reads_run_over_written_and_staged_batches() {
    let segment = filled(100, 10_000);
    assert_eq!(offsets(&segment.get_messages(100, 100)), (100..111).collect::<Vec<u64>>());
    assert_eq!(offsets(&segment.get_messages(0, 103)), vec![100, 101, 102]);
    assert_eq!(offsets(&segment.get_messages(0, 100)), Vec::<u64>::new());
    assert_eq!(offsets(&segment.get_messages(102, 3)), vec![102, 103, 104]);
    assert_eq!(offsets(&segment.get_messages(103, 1)), vec![103]);
    assert_eq!(offsets(&segment.get_messages(108, 2)), vec![108, 109]);
    assert_eq!(offsets(&segment.get_messages(110, 5)), vec![110]);
    assert_eq!(offsets(&segment.get_messages(111, 5)), Vec::<u64>::new());
    assert_eq!(offsets(&segment.get_messages(105, 0)), Vec::<u64>::new());
    assert_eq!(offsets(&segment.get_messages(u64::MAX, 5)), Vec::<u64>::new());
    assert_eq!(offsets(&segment.get_messages(105, u32::MAX)), (105..111).collect::<Vec<u64>>());
    for m in segment.get_messages(100, 100) {
        assert_eq!(&m.payload[..], b"payload");
        assert_eq!(m.id, m.offset as u128);
    }
}

#[test]
fn persisting_writes_the_staged_batches_behind_the_written_ones() {
    let mut segment = filled(100, 10_000);
    let staged: Vec<u8> = {
        let mut buffer = BytesMut::new();
        sound_batch(104, 5, 1003).extend(&mut buffer);
        sound_batch(109, 2, 1010).extend(&mut buffer);
        buffer.to_vec()
    };
    let before = segment.log_file().to_vec();
    let written = segment.persist_messages();
    assert_eq!(written as usize, staged.len());
    assert_eq!(segment.log_file().len() as u64, segment.size_bytes());
    assert_eq!(&segment.log_file()[..before.len()], &before[..]);
    assert_eq!(&segment.log_file()[before.len()..], &staged[..]);
    assert!(!segment.is_closed());
    assert_eq!(segment.persist_messages(), 0);
    assert_eq!(offsets(&segment.get_messages(100, 100)), (100..111).collect::<Vec<u64>>());
}

#[test]
fn a_full_segment_is_closed_when_it_is_persisted() {
    let mut segment = Segment::create(0, 200);
    segment.append_batch(sound_batch(0, 3, 10));
    assert!(!segment.is_full());
    segment.persist_messages();
    assert!(!segment.is_closed());
    segment.append_batch(sound_batch(3, 3, 20));
    assert!(segment.is_full());
    assert!(!segment.is_closed());
    segment.persist_messages();
    assert!(segment.is_closed());
    let mut open = Segment::create(0, 200);
    open.append_batch(sound_batch(0, 1, 10));
    open.close();
    assert!(open.is_closed());
    assert!(!open.is_full());
    assert_eq!(open.log_file().len(), 76);
}

#[test]
fn all_batches_come_in_the_order_of_their_offsets() {
    let segment = filled(100, 10_000);
    let batches = segment.get_all_batches();
    let bases: Vec<u64> = batches.iter().map(|b| b.base_offset).collect();
    assert_eq!(bases, vec![100, 103, 104, 109]);
    let deltas: Vec<u32> = batches.iter().map(|b| b.last_offset_delta).collect();
    assert_eq!(deltas, vec![2, 0, 4, 1]);
    let stamps: Vec<u64> = batches.iter().map(|b| b.max_timestamp).collect();
    assert_eq!(stamps, vec![1002, 1003, 1007, 1011]);
    assert_eq!(batches[0].bytes, sound_batch(100, 3, 1000).bytes);
    assert_eq!(batches[3].bytes, sound_batch(109, 2, 1010).bytes);
}

#[test]
fn newest_batches_by_size_are_the_longest_run_that_fits() {
    let segment = filled(100, 10_000);
    // sizes, oldest first: 180, 76, 284, 128
    let bases = |size: u64| -> Vec<u64> {
        segment
            .get_newest_message_batches_by_size(size)
            .iter()
            .map(|b| b.base_offset)
            .collect()
    };
    assert_eq!(bases(0), Vec::<u64>::new());
    assert_eq!(bases(127), Vec::<u64>::new());
    assert_eq!(bases(128), vec![109]);
    assert_eq!(bases(411), vec![109]);
    assert_eq!(bases(412), vec![104, 109]);
    assert_eq!(bases(488), vec![103, 104, 109]);
    assert_eq!(bases(667), vec![103, 104, 109]);
    assert_eq!(bases(668), vec![100, 103, 104, 109]);
    assert_eq!(bases(u64::MAX), vec![100, 103, 104, 109]);
}

#[test]
fn the_indexes_reach_thirty_two_bits_of_offsets() {
    let segment = Segment::create(10, 1000);
    let near = RetainedMessageBatch::new(10 + u32::MAX as u64 - 5, 5, 0, 0, Bytes::new());
    let far = RetainedMessageBatch::new(10 + u32::MAX as u64 - 5, 6, 0, 0, Bytes::new());
    assert!(segment.can_index(&near));
    assert!(!segment.can_index(&far));
}

#[test]
fn a_segment_loads_from_the_image_of_its_log_file() {
    let mut segment = filled(100, 600);
    segment.persist_messages();
    assert!(segment.is_closed());
    let image = segment.log_file().to_vec();
    let loaded = Segment::load(100, 600, &image).unwrap();
    assert_eq!(loaded.start_offset(), 100);
    assert_eq!(loaded.current_offset(), 110);
    assert_eq!(loaded.size_bytes(), segment.size_bytes());
    assert_eq!(loaded.indexes(), segment.indexes());
    assert_eq!(loaded.time_indexes(), segment.time_indexes());
    assert_eq!(loaded.log_file(), &image[..]);
    assert!(loaded.is_closed());
    assert_eq!(offsets(&loaded.get_messages(0, 1000)), (100..111).collect::<Vec<u64>>());
    let open = Segment::load(100, 10_000, &image).unwrap();
    assert!(!open.is_closed());
    let empty = Segment::load(7, 10, &[]).unwrap();
    assert!(empty.is_empty());
    assert_eq!(empty.start_offset(), 7);
}

#[test]
fn an_image_that_does_not_pass_is_corrupted() {
    let mut segment = filled(100, 10_000);
    segment.persist_messages();
    let image = segment.log_file().to_vec();
    assert!(Segment::load(100, 10_000, &image).is_ok());
    let corrupted = |image: &[u8]| matches!(Segment::load(100, 10_000, image), Err(Error::Corruption));
    // the wrong start offset, a cut header, a cut payload
    assert!(matches!(Segment::load(99, 10_000, &image), Err(Error::Corruption)));
    assert!(corrupted(&image[..10]));
    assert!(corrupted(&image[..100]));
    assert!(corrupted(&image[..image.len() - 1]));
    // a payload byte, a checksum, a base offset, a delta, a timestamp, a length
    for at in [24 + 4 + 41, 24 + 4 + 33, 180, 180 + 8, 12, 20] {
        let mut broken = image.clone();
        broken[at] ^= 1;
        assert!(corrupted(&broken), "byte {at}");
    }
    // a whole batch left out, and batches that go back in time
    let mut without_second = image[..180].to_vec();
    without_second.extend_from_slice(&image[256..]);
    assert!(corrupted(&without_second));
    let mut back = BytesMut::new();
    sound_batch(100, 2, 50).extend(&mut back);
    sound_batch(102, 2, 51).extend(&mut back);
    assert!(Segment::load(100, 10_000, &back).is_ok());
    let mut back = BytesMut::new();
    sound_batch(100, 2, 50).extend(&mut back);
    sound_batch(102, 2, 50).extend(&mut back);
    assert!(corrupted(&back));
}

#[test]
fn a_segment_accepts_the_batch_that_continues_it() {
    let mut segment = filled(100, 10_000);
    assert!(segment.accepts(&sound_batch(111, 3, 1011)));
    assert!(segment.accepts(&sound_batch(111, 1, 5000)));
    // a gap, an overlap, a step back in time
    assert!(!segment.accepts(&sound_batch(112, 3, 1011)));
    assert!(!segment.accepts(&sound_batch(110, 3, 1011)));
    assert!(!segment.accepts(&sound_batch(111, 3, 1010)));
    // a header that does not go with the records
    let good = sound_batch(111, 3, 1011);
    let bad = Arc::new(RetainedMessageBatch::new(111, 3, 1013, good.length, good.bytes.clone()));
    assert!(!segment.accepts(&bad));
    segment.close();
    assert!(!segment.accepts(&sound_batch(111, 3, 1011)));
    let empty = Segment::create(5, 100);
    assert!(empty.accepts(&sound_batch(5, 2, 0)));
    assert!(!empty.accepts(&sound_batch(0, 2, 0)));
}
