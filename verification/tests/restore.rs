use bytes::Bytes;
use streaming::error::Error;
use streaming::message::{Message, RetainedMessage};
use streaming::partition::{Partition, PartitionConfig, PollingConsumer};
use streaming::segment::Segment;

fn config() -> PartitionConfig {
    PartitionConfig {
        messages_required_to_save: 1,
        segment_size: 1000,
        cache_size: Some(1000),
        deduplication_window: Some(10),
    }
}

fn written_partition() -> Partition {
    let mut partition = Partition::create(1, 2, 3, true, config());
    for batch in 0..10u64 {
        let messages: Vec<Message> = (0..5)
            .map(|i| Message::new((batch * 5 + i) as u128, Bytes::from("payload"), None))
            .collect();
        let clock: Vec<u64> = (0..5).map(|i| 100 + batch * 10 + i).collect();
        partition.append_messages_at(&messages, &clock).unwrap();
    }
    partition
}

fn images(partition: &Partition) -> Vec<(u64, Vec<u8>)> {
    partition
        .get_segments()
        .iter()
        .map(|s| (s.start_offset(), s.log_file().to_vec()))
        .collect()
}

fn offsets(messages: &Vec<RetainedMessage>) -> Vec<u64> {
    messages.iter().map(|m| m.offset).collect()
}

#[test]
fn a_partition_comes_back_from_the_images_of_its_log_files() {
    let partition = written_partition();
    // A batch takes 24 + 5 * 52 = 284 bytes: a segment is full with its fourth batch.
    assert_eq!(partition.get_segments_count(), 3);
    let segments: Vec<Segment> = images(&partition)
        .iter()
        .map(|(start, image)| Segment::load(*start, 1000, image).unwrap())
        .collect();
    let mut restored = Partition::restore(1, 2, 3, config(), segments).unwrap();
    assert_eq!(restored.get_messages_count(), 50);
    assert_eq!(restored.current_offset(), 49);
    assert_eq!(restored.get_segments_count(), 3);
    assert_eq!(restored.get_cache_size(), 0);
    assert_eq!(restored.avg_timestamp_delta(), 0);
    assert_eq!(restored.get_consumer_offset(PollingConsumer::Consumer(1, 3)), None);
    let all = restored.get_messages_by_offset(0, 100).unwrap();
    let before = partition.get_messages_by_offset(0, 100).unwrap();
    assert_eq!(offsets(&all), (0..50).collect::<Vec<u64>>());
    for (a, b) in all.iter().zip(before.iter()) {
        assert_eq!((a.id, a.offset, a.timestamp, a.checksum), (b.id, b.offset, b.timestamp, b.checksum));
        assert_eq!(a.payload, b.payload);
    }
    assert_eq!(offsets(&restored.get_messages_by_timestamp(124, 3).unwrap()), vec![14, 15, 16]);
    // Between two entries of the index, with no distance in time known yet, the read is not
    // made longer: of the three messages read from offset 14 on, one is young enough.
    assert_eq!(offsets(&restored.get_messages_by_timestamp(131, 3).unwrap()), vec![16]);
    // The restored partition goes on where the old one stopped, also in time.
    restored
        .append_messages_at(&vec![Message::new(777, Bytes::from("new"), None)], &vec![5])
        .unwrap();
    let last = restored.get_last_messages(1).unwrap();
    assert_eq!(last[0].offset, 50);
    assert_eq!(last[0].timestamp, 194);
    assert_eq!(last[0].id, 777);
}

#[test]
fn segments_that_do_not_follow_one_another_are_corrupted() {
    let partition = written_partition();
    let images = images(&partition);
    let load = |which: &[usize]| -> Vec<Segment> {
        which
            .iter()
            .map(|i| Segment::load(images[*i].0, 1000, &images[*i].1).unwrap())
            .collect()
    };
    let restore = |segments: Vec<Segment>| Partition::restore(1, 2, 3, config(), segments);
    assert!(restore(load(&[0, 1, 2])).is_ok());
    assert!(restore(load(&[0, 1])).is_ok());
    assert!(restore(load(&[0])).is_ok());
    assert!(restore(Vec::new()).is_ok());
    assert!(matches!(restore(load(&[1, 2])), Err(Error::Corruption)));
    assert!(matches!(restore(load(&[0, 2])), Err(Error::Corruption)));
    assert!(matches!(restore(load(&[1, 0])), Err(Error::Corruption)));
    assert!(matches!(restore(load(&[0, 0])), Err(Error::Corruption)));
    // An open segment may only be the last, and an empty one only the first.
    let mut open = load(&[0, 1]);
    open[0] = Segment::load(0, 100_000, &images[0].1).unwrap();
    assert!(matches!(restore(open), Err(Error::Corruption)));
    let mut with_empty = load(&[0, 1, 2]);
    with_empty.push(Segment::create(50, 1000));
    assert!(matches!(restore(with_empty), Err(Error::Corruption)));
    let only_empty = vec![Segment::create(0, 1000)];
    assert_eq!(restore(only_empty).unwrap().get_messages_count(), 0);
    let wrong_start = vec![Segment::create(1, 1000)];
    assert!(matches!(restore(wrong_start), Err(Error::Corruption)));
}
