use bytes::Bytes;
use streaming::error::Error;
use streaming::message::{Message, RetainedMessage};
use streaming::partition::{Partition, PartitionConfig, PollingConsumer};
use streaming::system::{
    decrypt_messages, encrypt_messages, get_messages, PollingArgs, PollingKind, PollingStrategy,
    System,
};

fn config(cache_size: Option<u64>) -> PartitionConfig {
    PartitionConfig {
        messages_required_to_save: 1000,
        segment_size: 1_000_000,
        cache_size,
        deduplication_window: None,
    }
}

fn messages(first_id: u128, count: u128) -> Vec<Message> {
    (0..count)
        .map(|i| Message::new(first_id + i, Bytes::from("payload"), None))
        .collect()
}

fn system_with(partitions: u32, cache_size: Option<u64>, cache_limit: u64) -> System {
    let mut system = System::new(1, 2, cache_limit);
    for id in 1..=partitions {
        system.add_partition(Partition::create(1, 2, id, true, config(cache_size)));
    }
    system
}

fn offsets(messages: &Vec<RetainedMessage>) -> Vec<u64> {
    messages.iter().map(|m| m.offset).collect()
}

#[test]
fn polling_arguments_keep_their_fields() {
    let args = PollingArgs::new(PollingStrategy::timestamp(5), 10, true);
    assert_eq!(args.strategy, PollingStrategy { kind: PollingKind::Timestamp, value: 5 });
    assert_eq!(args.count, 10);
    assert!(args.auto_commit);
    assert_eq!(PollingStrategy::offset(9), PollingStrategy { kind: PollingKind::Offset, value: 9 });
    assert_eq!(PollingStrategy::first().kind, PollingKind::First);
    assert_eq!(PollingStrategy::last().kind, PollingKind::Last);
    assert_eq!(PollingStrategy::next().kind, PollingKind::Next);
}

#[test]
fn a_poll_of_no_messages_is_refused_before_anything_else() {
    let mut system = System::new(1, 2, 0);
    let consumer = PollingConsumer::Consumer(1, 1);
    let polled = system.poll_messages(consumer, 0, PollingArgs::new(PollingStrategy::first(), 0, false));
    assert!(matches!(polled, Err(Error::InvalidMessagesCount)));
    let polled = system.poll_messages(consumer, 0, PollingArgs::new(PollingStrategy::first(), 1, false));
    assert!(matches!(polled, Err(Error::NoPartitions(2, 1))));
    let mut system = system_with(2, None, 0);
    let polled = system.poll_messages(
        PollingConsumer::Consumer(1, 3),
        1,
        PollingArgs::new(PollingStrategy::first(), 1, false),
    );
    assert!(matches!(polled, Err(Error::PartitionNotFound(3, 2, 1))));
    let polled = system.poll_messages(
        PollingConsumer::ConsumerGroup(1, 1),
        0,
        PollingArgs::new(PollingStrategy::first(), 1, false),
    );
    assert!(matches!(polled, Err(Error::PartitionNotFound(0, 2, 1))));
}

#[test]
fn appending_needs_a_partition() {
    let mut system = System::new(1, 2, 0);
    assert!(matches!(
        system.append_messages(1, &messages(1, 3)),
        Err(Error::NoPartitions(2, 1))
    ));
    let mut system = system_with(2, None, 0);
    assert!(matches!(
        system.append_messages(3, &messages(1, 3)),
        Err(Error::PartitionNotFound(3, 2, 1))
    ));
    assert_eq!(system.get_messages_count(), 0);
    assert!(system.has_partitions());
    assert_eq!(system.get_partitions_count(), 2);
    assert!(system.get_partition(0).is_none());
    assert!(system.get_partition(3).is_none());
    assert_eq!(system.get_partition(2).unwrap().partition_id(), 2);
}

#[test]
fn a_poll_chooses_its_messages_by_its_strategy() {
    let mut system = system_with(2, None, 0);
    system.append_messages(2, &messages(1, 10)).unwrap();
    assert_eq!(system.get_messages_count(), 10);
    let consumer = PollingConsumer::Consumer(5, 2);
    let poll = |system: &mut System, strategy: PollingStrategy, count: u32| {
        system
            .poll_messages(consumer, 1, PollingArgs::new(strategy, count, false))
            .unwrap()
    };
    let polled = poll(&mut system, PollingStrategy::offset(3), 4);
    assert_eq!(polled.partition_id, 2);
    assert_eq!(polled.current_offset, 9);
    assert_eq!(offsets(&polled.messages), vec![3, 4, 5, 6]);
    assert_eq!(offsets(&poll(&mut system, PollingStrategy::first(), 2).messages), vec![0, 1]);
    assert_eq!(offsets(&poll(&mut system, PollingStrategy::last(), 2).messages), vec![8, 9]);
    assert_eq!(offsets(&poll(&mut system, PollingStrategy::next(), 2).messages), vec![0, 1]);
    assert_eq!(offsets(&poll(&mut system, PollingStrategy::next(), 2).messages), vec![0, 1]);
    assert_eq!(offsets(&poll(&mut system, PollingStrategy::timestamp(0), 3).messages), vec![0, 1, 2]);
    // The other partition has no message; a member of a group reads the partition it is given.
    let polled = system
        .poll_messages(
            PollingConsumer::ConsumerGroup(1, 2),
            1,
            PollingArgs::new(PollingStrategy::first(), 5, true),
        )
        .unwrap();
    assert_eq!(polled.partition_id, 1);
    assert!(polled.messages.is_empty());
    let partition = system.get_partition(1).unwrap();
    assert_eq!(partition.get_consumer_offset(PollingConsumer::ConsumerGroup(1, 2)), None);
    let partition = system.get_partition(2).unwrap();
    let direct = get_messages(partition, consumer, PollingStrategy::offset(8), 10).unwrap();
    assert_eq!(offsets(&direct), vec![8, 9]);
    assert!(matches!(
        get_messages(partition, consumer, PollingStrategy::last(), 0),
        Err(Error::InvalidMessagesCount)
    ));
}

#[test]
fn a_poll_that_commits_stores_the_offset_of_its_last_message() {
    let mut system = system_with(1, None, 0);
    system.append_messages(1, &messages(1, 10)).unwrap();
    let consumer = PollingConsumer::Consumer(5, 1);
    let args = PollingArgs::new(PollingStrategy::next(), 4, true);
    assert_eq!(offsets(&system.poll_messages(consumer, 0, args).unwrap().messages), vec![0, 1, 2, 3]);
    assert_eq!(system.get_partition(1).unwrap().get_consumer_offset(consumer), Some(3));
    assert_eq!(offsets(&system.poll_messages(consumer, 0, args).unwrap().messages), vec![4, 5, 6, 7]);
    assert_eq!(offsets(&system.poll_messages(consumer, 0, args).unwrap().messages), vec![8, 9]);
    assert_eq!(system.get_partition(1).unwrap().get_consumer_offset(consumer), Some(9));
    assert!(system.poll_messages(consumer, 0, args).unwrap().messages.is_empty());
    assert_eq!(system.get_partition(1).unwrap().get_consumer_offset(consumer), Some(9));
    let other = PollingConsumer::Consumer(6, 1);
    assert_eq!(system.get_partition(1).unwrap().get_consumer_offset(other), None);
}

#[test]
fn the_caches_give_up_batches_for_an_append_that_does_not_fit() {
    // Three messages with seven bytes of payload take 24 + 3 * 52 = 180 bytes in a cache and are
    // announced with 3 * (20 + 7) = 81 bytes.
    let mut system = system_with(2, Some(10_000), 400);
    system.append_messages(1, &messages(1, 3)).unwrap();
    system.append_messages(2, &messages(1, 3)).unwrap();
    assert_eq!(system.get_cache_usage(), 360);
    assert!(system.will_fit_into_cache(40));
    assert!(!system.will_fit_into_cache(41));
    // 81 more bytes do not fit: the first partition gives up its batch.
    system.append_messages(2, &messages(4, 3)).unwrap();
    assert_eq!(system.get_partition(1).unwrap().get_cache_size(), 0);
    assert_eq!(system.get_partition(2).unwrap().get_cache_size(), 360);
    assert_eq!(system.get_cache_usage(), 360);
    let polled = system
        .poll_messages(
            PollingConsumer::Consumer(1, 1),
            0,
            PollingArgs::new(PollingStrategy::first(), 10, false),
        )
        .unwrap();
    assert_eq!(offsets(&polled.messages), vec![0, 1, 2]);
    assert_eq!(system.clean_cache(100), 180);
    assert_eq!(system.get_cache_usage(), 180);
    assert_eq!(system.clean_cache(1000), 180);
    assert_eq!(system.get_cache_usage(), 0);
    assert_eq!(system.clean_cache(1000), 0);
    assert_eq!(system.get_messages_count(), 9);
}

fn flip(payload: &Bytes) -> Option<Bytes> {
    if payload.is_empty() {
        None
    } else {
        Some(Bytes::from(payload.iter().map(|b| b ^ 0x5a).collect::<Vec<u8>>()))
    }
}

#[test]
fn payloads_are_encrypted_before_an_append_and_decrypted_after_a_poll() {
    let plain = vec![
        Message::new(1, Bytes::from("one"), Some(Bytes::from("h"))),
        Message::new(2, Bytes::from("two"), None),
    ];
    let secret = encrypt_messages(&plain, flip).unwrap();
    assert_eq!(secret.len(), 2);
    assert_eq!(secret[0].id, 1);
    assert_eq!(secret[0].headers, plain[0].headers);
    assert_eq!(&secret[0].payload[..], &[b'o' ^ 0x5a, b'n' ^ 0x5a, b'e' ^ 0x5a]);
    let mut system = system_with(1, None, 0);
    system.append_messages(1, &secret).unwrap();
    let polled = system
        .poll_messages(
            PollingConsumer::Consumer(1, 1),
            0,
            PollingArgs::new(PollingStrategy::first(), 10, false),
        )
        .unwrap();
    assert_eq!(polled.messages[0].payload, secret[0].payload);
    let decrypted = decrypt_messages(&polled.messages, flip).unwrap();
    assert_eq!(decrypted.len(), 2);
    assert_eq!(&decrypted[0].payload[..], b"one");
    assert_eq!(&decrypted[1].payload[..], b"two");
    assert_eq!(decrypted[0].headers, plain[0].headers);
    assert_eq!(decrypted[1].offset, 1);
    assert_eq!(decrypted[1].id, 2);
    assert_eq!(decrypted[1].checksum, polled.messages[1].checksum);
    assert_eq!(decrypted[1].timestamp, polled.messages[1].timestamp);
}

#[test]
fn a_payload_that_cannot_be_encrypted_or_decrypted_ends_the_work() {
    let with_empty = vec![
        Message::new(1, Bytes::from("one"), None),
        Message::new(2, Bytes::new(), None),
    ];
    assert!(matches!(
        encrypt_messages(&with_empty, flip),
        Err(Error::CannotEncryptData)
    ));
    let mut system = system_with(1, None, 0);
    system.append_messages(1, &with_empty).unwrap();
    let polled = system
        .poll_messages(
            PollingConsumer::Consumer(1, 1),
            0,
            PollingArgs::new(PollingStrategy::first(), 10, false),
        )
        .unwrap();
    assert!(matches!(
        decrypt_messages(&polled.messages, flip),
        Err(Error::CannotDecryptData)
    ));
}

#[test]
fn a_system_knows_its_ids_and_what_it_accepts() {
    let system = system_with(2, None, 0);
    assert_eq!(system.stream_id(), 1);
    assert_eq!(system.topic_id(), 2);
    assert!(system.accepts(1, &messages(1, 100)));
    assert!(system.accepts(7, &messages(1, 100)));
}
