use bytes::Bytes;
use streaming::error::Error;
use streaming::message::{Message, RetainedMessage};
use streaming::partition::{Partition, PartitionConfig, PollingConsumer};

fn config(deduplication_enabled: bool) -> PartitionConfig {
    PartitionConfig {
        messages_required_to_save: 1000,
        segment_size: 1_000_000_000,
        cache_size: Some(10_000_000),
        deduplication_window: if deduplication_enabled { Some(1000) } else { None },
    }
}

fn create_partition(deduplication_enabled: bool) -> Partition {
    let stream_id = 1;
    let topic_id = 2;
    let partition_id = 3;
    let with_segment = true;
    Partition::create(
        stream_id,
        topic_id,
        partition_id,
        with_segment,
        config(deduplication_enabled),
    )
}

fn create_message(id: u128, payload: &str) -> Message {
    Message::new(id, Bytes::from(payload.to_string()), None)
}

fn create_messages() -> Vec<Message> {
    vec![
        create_message(1, "message 1"),
        create_message(2, "message 2"),
        create_message(3, "message 3"),
        create_message(2, "message 3.2"),
        create_message(1, "message 1.2"),
        create_message(3, "message 3.3"),
    ]
}

fn offsets(messages: &Vec<RetainedMessage>) -> Vec<u64> {
    messages.iter().map(|m| m.offset).collect()
}

fn ids(messages: &Vec<RetainedMessage>) -> Vec<u128> {
    messages.iter().map(|m| m.id).collect()
}

fn payloads(messages: &Vec<RetainedMessage>) -> Vec<Vec<u8>> {
    messages.iter().map(|m| m.payload.to_vec()).collect()
}

#[test]
fn given_disabled_message_deduplication_all_messages_should_be_appended() {
    let mut partition = create_partition(false);
    let messages = create_messages();
    let messages_count = messages.len() as u32;
    partition.append_messages(&messages).unwrap();

    let loaded_messages = partition
        .get_messages_by_offset(0, messages_count)
        .unwrap();
    assert_eq!(loaded_messages.len(), messages_count as usize);
}

#[test]
fn given_enabled_message_deduplication_only_messages_with_unique_id_should_be_appended() {
    let mut partition = create_partition(true);
    let messages = create_messages();
    let messages_count = messages.len() as u32;
    let unique_messages_count = 3;
    partition.append_messages(&messages).unwrap();

    let loaded_messages = partition
        .get_messages_by_offset(0, messages_count)
        .unwrap();
    assert_eq!(loaded_messages.len(), unique_messages_count);
}

#[test]
fn basic_append_and_read_gives_offsets_and_payloads_in_order() {
    let mut partition = create_partition(false);
    let messages = vec![
        create_message(1, "a"),
        create_message(2, "b"),
        create_message(3, "c"),
        create_message(4, "d"),
        create_message(5, "e"),
    ];
    partition.append_messages(&messages).unwrap();
    let loaded = partition.get_messages_by_offset(0, 5).unwrap();
    assert_eq!(loaded.len(), 5);
    assert_eq!(offsets(&loaded), vec![0, 1, 2, 3, 4]);
    assert_eq!(
        payloads(&loaded),
        vec![b"a".to_vec(), b"b".to_vec(), b"c".to_vec(), b"d".to_vec(), b"e".to_vec()]
    );
    assert_eq!(partition.get_messages_count(), 5);
    assert_eq!(partition.current_offset(), 4);
}

#[test]
fn deduplication_drops_duplicates_and_keeps_offsets_contiguous() {
    let mut partition = create_partition(true);
    let messages = vec![
        create_message(1, "a"),
        create_message(1, "b"),
        create_message(2, "c"),
        create_message(2, "d"),
        create_message(3, "e"),
    ];
    partition.append_messages(&messages).unwrap();
    let loaded = partition.get_messages_by_offset(0, 5).unwrap();
    assert_eq!(loaded.len(), 3);
    assert_eq!(offsets(&loaded), vec![0, 1, 2]);
    assert_eq!(ids(&loaded), vec![1, 2, 3]);
}

fn ten_messages() -> Vec<Message> {
    (0..10u128).map(|i| create_message(i + 1, "payload")).collect()
}

#[test]
fn timestamp_lookup_exact_starts_at_the_message_with_that_timestamp() {
    let mut partition = create_partition(false);
    let messages = ten_messages();
    let clock: Vec<u64> = (0..10u64).map(|i| 1_000_000 + i * 100).collect();
    partition.append_messages_at(&messages, &clock).unwrap();
    let all = partition.get_messages_by_offset(0, 10).unwrap();
    let t5 = all[5].timestamp;
    assert_eq!(t5, 1_000_500);
    let loaded = partition.get_messages_by_timestamp(t5, 3).unwrap();
    assert_eq!(offsets(&loaded), vec![5, 6, 7]);
}

#[test]
fn timestamp_lookup_between_indexed_entries_skips_older_messages() {
    let mut partition = create_partition(false);
    for batch in 0..12u64 {
        let first = batch * 2;
        let messages = vec![
            create_message(first as u128 + 1, "payload"),
            create_message(first as u128 + 2, "payload"),
        ];
        let clock = vec![1_000_000 + first * 200, 1_000_000 + (first + 1) * 200];
        partition.append_messages_at(&messages, &clock).unwrap();
    }
    assert_eq!(partition.avg_timestamp_delta(), 99);
    let all = partition.get_messages_by_offset(0, 24).unwrap();
    let t = all[3].timestamp + 250;
    let loaded = partition.get_messages_by_timestamp(t, 2).unwrap();
    assert_eq!(loaded.len(), 2);
    assert!(loaded.iter().all(|m| m.timestamp >= t));
    assert_eq!(offsets(&loaded), vec![5, 6]);
}

#[test]
fn timestamp_older_than_every_entry_reads_from_the_start() {
    let mut partition = create_partition(false);
    let clock: Vec<u64> = (0..10u64).map(|i| 1_000_000 + i * 100).collect();
    partition.append_messages_at(&ten_messages(), &clock).unwrap();
    let loaded = partition.get_messages_by_timestamp(5, 4).unwrap();
    assert_eq!(offsets(&loaded), vec![0, 1, 2, 3]);
    let loaded = partition.get_messages_by_timestamp(1_000_250, 4).unwrap();
    assert_eq!(offsets(&loaded), vec![3, 4, 5, 6]);
    let loaded = partition.get_messages_by_timestamp(2_000_000, 4).unwrap();
    assert!(loaded.is_empty());
}

#[test]
fn timestamp_lookup_without_an_index_entry_is_empty() {
    let partition = create_partition(false);
    assert!(partition.get_messages_by_timestamp(1, 5).unwrap().is_empty());
    let partition = Partition::create(1, 2, 3, false, config(false));
    assert!(partition.get_messages_by_timestamp(1, 5).unwrap().is_empty());
}

#[test]
fn clock_that_falls_behind_does_not_turn_timestamps_back() {
    let mut partition = create_partition(false);
    let messages = ten_messages();
    let clock = vec![500, 400, 600, 100, 100, 700, 0, 700, 800, 1];
    partition.append_messages_at(&messages, &clock).unwrap();
    let loaded = partition.get_messages_by_offset(0, 10).unwrap();
    let timestamps: Vec<u64> = loaded.iter().map(|m| m.timestamp).collect();
    assert_eq!(timestamps, vec![500, 500, 600, 600, 600, 700, 700, 700, 800, 800]);
    partition
        .append_messages_at(&vec![create_message(99, "late")], &vec![3])
        .unwrap();
    let loaded = partition.get_last_messages(1).unwrap();
    assert_eq!(loaded[0].timestamp, 800);
    assert_eq!(loaded[0].offset, 10);
}

#[test]
fn smoothed_timestamp_delta_follows_the_batches() {
    let mut partition = create_partition(false);
    assert_eq!(partition.avg_timestamp_delta(), 0);
    let two = |id: u128| vec![create_message(id, "x"), create_message(id + 1, "y")];
    // The distance within the batch is (200 - 0) / 2 = 100: far from 0, so it weighs 0.3.
    partition.append_messages_at(&two(1), &vec![0, 200]).unwrap();
    assert_eq!(partition.avg_timestamp_delta(), 30);
    // 0.3 * 100 + 0.7 * 30 = 51
    partition.append_messages_at(&two(3), &vec![400, 600]).unwrap();
    assert_eq!(partition.avg_timestamp_delta(), 51);
    // The distance within the batch is (708 - 600) / 2 = 54: 3 from 51, so it weighs 0.7.
    partition.append_messages_at(&two(5), &vec![600, 708]).unwrap();
    assert_eq!(partition.avg_timestamp_delta(), 53);
    // The distance within the batch is (824 - 708) / 2 = 58: 5 from 53, so it weighs 0.5.
    partition.append_messages_at(&two(7), &vec![708, 824]).unwrap();
    assert_eq!(partition.avg_timestamp_delta(), 55);
}

#[test]
fn adjusted_count_rounds_the_overfetch_up() {
    let mut partition = create_partition(false);
    let two = |id: u128| vec![create_message(id, "x"), create_message(id + 1, "y")];
    assert_eq!(partition.calculate_adjusted_timestamp_message_count(7, 1000, 10), 7);
    partition.append_messages_at(&two(1), &vec![0, 200]).unwrap();
    assert_eq!(partition.avg_timestamp_delta(), 30);
    // 60 / 30 * 1.35 = 2.7, rounded up to 3
    assert_eq!(partition.calculate_adjusted_timestamp_message_count(2, 160, 100), 5);
    // 200 / 30 * 1.35 = 9 exactly
    assert_eq!(partition.calculate_adjusted_timestamp_message_count(2, 300, 100), 11);
    assert_eq!(partition.calculate_adjusted_timestamp_message_count(2, 100, 100), 2);
    assert_eq!(
        partition.calculate_adjusted_timestamp_message_count(u32::MAX - 1, 300, 100),
        u32::MAX
    );
}

#[test]
fn consumer_offset_continuity() {
    let mut partition = create_partition(false);
    partition.append_messages(&ten_messages()).unwrap();
    let consumer = PollingConsumer::Consumer(7, 3);
    partition.store_consumer_offset(consumer, 4);
    assert_eq!(partition.get_consumer_offset(consumer), Some(4));
    let loaded = partition.get_next_messages(consumer, 10).unwrap();
    assert_eq!(offsets(&loaded), vec![5, 6, 7, 8, 9]);
    partition.store_consumer_offset(consumer, 9);
    let loaded = partition.get_next_messages(consumer, 10).unwrap();
    assert!(loaded.is_empty());
}

#[test]
fn reading_no_messages_is_refused() {
    let mut partition = create_partition(false);
    partition.append_messages(&ten_messages()).unwrap();
    assert!(matches!(
        partition.get_messages_by_offset(0, 0),
        Err(Error::InvalidMessagesCount)
    ));
    assert!(matches!(
        partition.get_last_messages(0),
        Err(Error::InvalidMessagesCount)
    ));
    assert!(matches!(
        partition.get_messages_by_timestamp(0, 0),
        Err(Error::InvalidMessagesCount)
    ));
}

#[test]
fn append_without_a_segment_is_refused() {
    let mut partition = Partition::create(1, 2, 3, false, config(false));
    let appended = partition.append_messages(&ten_messages());
    assert!(matches!(appended, Err(Error::SegmentNotFound)));
    assert_eq!(partition.get_messages_count(), 0);
    assert_eq!(partition.current_offset(), 0);
    assert!(partition.get_messages_by_offset(0, 10).unwrap().is_empty());
}

#[test]
fn last_messages_end_at_the_current_offset() {
    let mut partition = create_partition(false);
    partition.append_messages(&ten_messages()).unwrap();
    let loaded = partition.get_last_messages(3).unwrap();
    assert_eq!(offsets(&loaded), vec![7, 8, 9]);
    let loaded = partition.get_last_messages(50).unwrap();
    assert_eq!(loaded.len(), 10);
    assert_eq!(loaded.last().unwrap().offset, partition.current_offset());
}

#[test]
fn reads_from_the_cache_and_from_the_segments_agree() {
    let mut cached = create_partition(false);
    let mut plain = Partition::create(
        1,
        2,
        3,
        true,
        PartitionConfig {
            messages_required_to_save: 3,
            segment_size: 400,
            cache_size: None,
            deduplication_window: None,
        },
    );
    for batch in 0..20u64 {
        let messages: Vec<Message> = (0..5)
            .map(|i| create_message((batch * 5 + i) as u128, "some payload"))
            .collect();
        let clock: Vec<u64> = (0..5).map(|i| 10 + batch * 50 + i * 10).collect();
        cached.append_messages_at(&messages, &clock).unwrap();
        plain.append_messages_at(&messages, &clock).unwrap();
    }
    assert!(plain.get_segments_count() > 1);
    assert_eq!(cached.get_segments_count(), 1);
    for (start, count) in [(0u64, 100u32), (0, 1), (3, 4), (17, 40), (98, 5), (99, 1), (100, 3), (42, 1000)] {
        let from_cache = cached.get_messages_by_offset(start, count).unwrap();
        let from_segments = plain.get_messages_by_offset(start, count).unwrap();
        let expected: Vec<u64> = (start..(start + count as u64).min(100)).collect();
        assert_eq!(offsets(&from_cache), expected);
        assert_eq!(offsets(&from_segments), expected);
        assert_eq!(payloads(&from_cache), payloads(&from_segments));
        assert_eq!(ids(&from_cache), ids(&from_segments));
    }
}

#[test]
fn a_read_may_start_in_the_cache_or_before_it() {
    let mut partition = Partition::create(
        1,
        2,
        3,
        true,
        PartitionConfig {
            messages_required_to_save: 1000,
            segment_size: 1_000_000,
            cache_size: Some(200),
            deduplication_window: None,
        },
    );
    for batch in 0..10u64 {
        let messages: Vec<Message> = (0..2)
            .map(|i| create_message((batch * 2 + i) as u128, "payload"))
            .collect();
        partition.append_messages(&messages).unwrap();
    }
    // Each batch takes 24 + 2 * 52 = 128 bytes: the cache holds the newest one only.
    assert_eq!(partition.get_cache_size(), 128);
    assert!(partition.try_get_messages_from_cache(18, 19).is_some());
    assert!(partition.try_get_messages_from_cache(17, 19).is_none());
    assert!(partition.try_get_messages_from_cache(18, 20).is_none());
    assert!(partition.try_get_messages_from_cache(19, 18).is_none());
    assert!(partition.load_messages_from_cache(17, 18).is_none());
    assert_eq!(offsets(&partition.load_messages_from_cache(19, 19).unwrap()), vec![19]);
    let loaded = partition.get_messages_by_offset(15, 5).unwrap();
    assert_eq!(offsets(&loaded), vec![15, 16, 17, 18, 19]);
    assert_eq!(partition.get_end_offset(15, 3), 17);
    assert_eq!(partition.get_end_offset(15, 30), 19);
    assert_eq!(partition.get_end_offset(u64::MAX, 30), 19);
}

#[test]
fn first_messages_and_next_messages_without_a_stored_offset_agree() {
    let mut partition = create_partition(false);
    partition.append_messages(&ten_messages()).unwrap();
    let first = partition.get_first_messages(4).unwrap();
    assert_eq!(offsets(&first), vec![0, 1, 2, 3]);
    let group = PollingConsumer::ConsumerGroup(1, 2);
    let next = partition.get_next_messages(group, 4).unwrap();
    assert_eq!(offsets(&next), vec![0, 1, 2, 3]);
    partition.store_consumer_offset(group, 7);
    assert_eq!(partition.get_consumer_offset(PollingConsumer::ConsumerGroup(1, 9)), Some(7));
    assert_eq!(partition.get_consumer_offset(PollingConsumer::Consumer(1, 2)), None);
    let next = partition.get_next_messages(group, 4).unwrap();
    assert_eq!(offsets(&next), vec![8, 9]);
    partition.store_consumer_offset(group, u64::MAX);
    assert!(partition.get_next_messages(group, 4).unwrap().is_empty());
}

#[test]
fn the_window_against_duplicates_forgets_old_ids() {
    let mut partition = Partition::create(
        1,
        2,
        3,
        true,
        PartitionConfig {
            messages_required_to_save: 1000,
            segment_size: 1_000_000,
            cache_size: None,
            deduplication_window: Some(2),
        },
    );
    let messages = vec![
        create_message(1, "a"),
        create_message(2, "b"),
        create_message(1, "c"),
        create_message(3, "d"),
        create_message(1, "e"),
    ];
    partition.append_messages(&messages).unwrap();
    let loaded = partition.get_messages_by_offset(0, 10).unwrap();
    assert_eq!(ids(&loaded), vec![1, 2, 3, 1]);
    assert_eq!(offsets(&loaded), vec![0, 1, 2, 3]);
    partition.append_messages(&vec![create_message(1, "f"), create_message(3, "g")]).unwrap();
    assert_eq!(partition.get_messages_count(), 4);
    assert_eq!(partition.current_offset(), 3);
}

fn batch_of_ten(first: u64) -> (Vec<Message>, Vec<u64>) {
    let messages = (0..10)
        .map(|i| create_message((first + i) as u128, "payload"))
        .collect();
    let clock = (0..10).map(|i| 1000 + (first + i) * 10).collect();
    (messages, clock)
}

fn two_segments_of_a_hundred() -> Partition {
    // Ten messages with seven bytes of payload take 24 + 10 * 52 = 544 bytes as a batch, so a
    // segment of 5000 bytes is full, and closed, with its tenth batch.
    let mut partition = Partition::create(
        1,
        2,
        3,
        true,
        PartitionConfig {
            messages_required_to_save: 1000,
            segment_size: 5000,
            cache_size: None,
            deduplication_window: None,
        },
    );
    for batch in 0..20u64 {
        let (messages, clock) = batch_of_ten(batch * 10);
        partition.append_messages_at(&messages, &clock).unwrap();
    }
    assert_eq!(partition.get_segments_count(), 2);
    assert_eq!(partition.get_segments()[0].current_offset(), 99);
    assert!(partition.get_segments()[0].is_closed());
    assert_eq!(partition.get_segments()[1].start_offset(), 100);
    assert_eq!(partition.get_segments()[1].current_offset(), 199);
    partition
}

#[test]
fn newest_by_size_takes_the_newest_batches_that_fit() {
    let partition = two_segments_of_a_hundred();
    let size_of_fifty: u64 = 5 * 544;
    let size = size_of_fifty + size_of_fifty / 2;
    let batches = partition.get_newest_messages_by_size(size).unwrap();
    let total: u64 = batches.iter().map(|b| b.get_size_bytes()).sum();
    assert!(total <= size);
    assert_eq!(batches.len(), 7);
    assert_eq!(batches[0].base_offset, 130);
    assert_eq!(batches.last().unwrap().get_last_offset(), 199);
    for pair in batches.windows(2) {
        assert_eq!(pair[0].get_last_offset() + 1, pair[1].base_offset);
    }
}

#[test]
fn newest_by_size_crosses_segments() {
    let partition = two_segments_of_a_hundred();
    let size = 10 * 544 + 5 * 544 + 100;
    let batches = partition.get_newest_messages_by_size(size).unwrap();
    let total: u64 = batches.iter().map(|b| b.get_size_bytes()).sum();
    assert!(total <= size);
    assert_eq!(batches.len(), 15);
    assert_eq!(batches[0].base_offset, 50);
    assert_eq!(batches.last().unwrap().get_last_offset(), 199);
    for pair in batches.windows(2) {
        assert_eq!(pair[0].get_last_offset() + 1, pair[1].base_offset);
    }
    assert!(partition.get_newest_messages_by_size(543).unwrap().is_empty());
    assert_eq!(partition.get_newest_messages_by_size(u64::MAX).unwrap().len(), 20);
    assert_eq!(partition.get_newest_messages_by_size(10 * 544).unwrap().len(), 10);
}

#[test]
fn reads_cross_segments_without_gaps_or_repeats() {
    let partition = two_segments_of_a_hundred();
    let loaded = partition.get_messages_by_offset(95, 10).unwrap();
    assert_eq!(offsets(&loaded), (95..105).collect::<Vec<u64>>());
    let loaded = partition.get_messages_by_offset(0, 1000).unwrap();
    assert_eq!(offsets(&loaded), (0..200).collect::<Vec<u64>>());
    let filtered = partition.filter_segments_by_offsets(95, 104);
    assert_eq!(filtered.len(), 2);
    let filtered = partition.filter_segments_by_offsets(100, 104);
    assert_eq!(filtered.len(), 1);
    assert_eq!(filtered[0].start_offset(), 100);
    let filtered = partition.filter_segments_by_offsets(10, 20);
    assert_eq!(filtered.len(), 1);
    assert_eq!(filtered[0].start_offset(), 0);
    let loaded = partition.get_messages_by_timestamp(1000 + 97 * 10, 6).unwrap();
    assert_eq!(offsets(&loaded), vec![97, 98, 99, 100, 101, 102]);
}

#[test]
fn unsaved_messages_are_written_when_enough_have_gathered() {
    let mut partition = Partition::create(
        1,
        2,
        3,
        true,
        PartitionConfig {
            messages_required_to_save: 25,
            segment_size: 1_000_000,
            cache_size: None,
            deduplication_window: None,
        },
    );
    let (messages, clock) = batch_of_ten(0);
    partition.append_messages_at(&messages, &clock).unwrap();
    assert_eq!(partition.unsaved_messages_count(), 10);
    assert!(partition.get_segments()[0].log_file().is_empty());
    let (messages, clock) = batch_of_ten(10);
    partition.append_messages_at(&messages, &clock).unwrap();
    assert_eq!(partition.unsaved_messages_count(), 20);
    let (messages, clock) = batch_of_ten(20);
    partition.append_messages_at(&messages, &clock).unwrap();
    assert_eq!(partition.unsaved_messages_count(), 0);
    assert_eq!(partition.get_segments()[0].log_file().len(), 3 * 544);
    assert_eq!(partition.get_segments()[0].size_bytes(), 3 * 544);
    let loaded = partition.get_messages_by_offset(5, 20).unwrap();
    assert_eq!(offsets(&loaded), (5..25).collect::<Vec<u64>>());
}

#[test]
fn a_partition_knows_its_ids_and_what_it_accepts() {
    let mut partition = create_partition(false);
    assert_eq!(partition.stream_id(), 1);
    assert_eq!(partition.topic_id(), 2);
    assert_eq!(partition.partition_id(), 3);
    assert!(partition.accepts(&ten_messages()));
    assert!(partition.accepts(&Vec::new()));
    assert!(streaming::partition::append::fits_batch(&ten_messages()));
    // Nothing is appended for no messages, and nothing changes.
    partition.append_messages(&Vec::new()).unwrap();
    assert_eq!(partition.get_messages_count(), 0);
    assert_eq!(partition.unsaved_messages_count(), 0);
    assert_eq!(partition.get_segments()[0].size_bytes(), 0);
}

#[test]
fn appended_messages_are_stamped_with_the_clock() {
    let before = std::time::SystemTime::now()
        .duration_since(std::time::UNIX_EPOCH)
        .unwrap()
        .as_micros() as u64;
    let mut partition = create_partition(false);
    partition.append_messages(&ten_messages()).unwrap();
    partition.append_messages(&ten_messages()).unwrap();
    let after = std::time::SystemTime::now()
        .duration_since(std::time::UNIX_EPOCH)
        .unwrap()
        .as_micros() as u64;
    let loaded = partition.get_messages_by_offset(0, 20).unwrap();
    assert_eq!(loaded.len(), 20);
    for pair in loaded.windows(2) {
        assert_eq!(pair[0].offset + 1, pair[1].offset);
        assert!(pair[0].timestamp <= pair[1].timestamp);
    }
    assert!(before <= loaded[0].timestamp);
    assert!(loaded[19].timestamp <= after.max(loaded[0].timestamp));
}
