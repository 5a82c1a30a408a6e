use bytes::Bytes;
use streaming::message::Message;
use streaming::partition::{Partition, PartitionConfig};
use streaming::segment::Segment;

struct Lcg(u64);

impl Lcg {
    fn next(&mut self, below: u64) -> u64 {
        self.0 = self
            .0
            .wrapping_mul(6364136223846793005)
            .wrapping_add(1442695040888963407);
        (self.0 >> 33) % below
    }
}

struct Kept {
    id: u128,
    timestamp: u64,
    payload: Vec<u8>,
    headers: Vec<u8>,
}

fn run(seed: u64, config: PartitionConfig) {
    let mut random = Lcg(seed);
    let mut partition = Partition::create(1, 1, 1, true, config);
    let mut model: Vec<Kept> = Vec::new();
    let mut window: Vec<u128> = Vec::new();
    let mut now: u64 = 1_000;
    for _ in 0..60 {
        let count = random.next(7) as usize;
        let mut messages = Vec::new();
        let mut clock = Vec::new();
        for _ in 0..count {
            let id = random.next(40) as u128;
            let payload: Vec<u8> = (0..random.next(30)).map(|_| random.next(256) as u8).collect();
            let headers: Vec<u8> = (0..random.next(3) * 5).map(|_| random.next(256) as u8).collect();
            // The clock mostly goes on, and sometimes falls behind.
            now = if random.next(5) == 0 { now.saturating_sub(random.next(50)) } else { now + random.next(200) };
            let duplicate = match config.deduplication_window {
                Some(capacity) if capacity > 0 => {
                    if window.contains(&id) {
                        true
                    } else {
                        if window.len() >= capacity {
                            window.remove(0);
                        }
                        window.push(id);
                        false
                    }
                }
                _ => false,
            };
            if !duplicate {
                let timestamp = model.last().map_or(now, |last| last.timestamp.max(now));
                model.push(Kept { id, timestamp, payload: payload.clone(), headers: headers.clone() });
            }
            let headers = if headers.is_empty() { None } else { Some(Bytes::from(headers)) };
            messages.push(Message::new(id, Bytes::from(payload), headers));
            clock.push(now);
        }
        assert!(partition.accepts(&messages));
        partition.append_messages_at(&messages, &clock).unwrap();
        assert_eq!(partition.get_messages_count(), model.len() as u64);
        if !model.is_empty() {
            assert_eq!(partition.current_offset(), model.len() as u64 - 1);
        }
        // a read by offset
        let start = random.next(model.len() as u64 + 3);
        let count = 1 + random.next(25) as u32;
        let read = partition.get_messages_by_offset(start, count).unwrap();
        let from = (start as usize).min(model.len());
        let to = (start as usize + count as usize).min(model.len());
        assert_eq!(read.len(), to - from);
        for (message, kept) in read.iter().zip(model[from..to].iter()) {
            assert_eq!(message.id, kept.id);
            assert_eq!(message.timestamp, kept.timestamp);
            assert_eq!(&message.payload[..], &kept.payload[..]);
            assert_eq!(message.headers.clone().unwrap_or_default().to_vec(), kept.headers);
        }
        for (place, message) in read.iter().enumerate() {
            assert_eq!(message.offset, (from + place) as u64);
        }
        // a read of the last messages
        let last = partition.get_last_messages(count).unwrap();
        assert_eq!(last.len(), (count as usize).min(model.len()));
        if let Some(message) = last.last() {
            assert_eq!(message.offset, partition.current_offset());
        }
        // a read by timestamp
        let timestamp = 900 + random.next(now - 800);
        let read = partition.get_messages_by_timestamp(timestamp, count).unwrap();
        assert!(read.len() <= count as usize);
        assert!(read.iter().all(|m| m.timestamp >= timestamp));
        assert!(read.windows(2).all(|p| p[0].offset < p[1].offset && p[0].timestamp <= p[1].timestamp));
        // a read by size
        let size = random.next(3000);
        let batches = partition.get_newest_messages_by_size(size).unwrap();
        assert!(batches.iter().map(|b| b.get_size_bytes()).sum::<u64>() <= size);
        assert!(batches.windows(2).all(|p| p[0].get_last_offset() + 1 == p[1].base_offset));
    }
    // The segments follow one another, and what they have written loads again.
    let segments = partition.get_segments();
    let mut next = 0;
    for (place, segment) in segments.iter().enumerate() {
        assert_eq!(segment.start_offset(), next);
        if !segment.is_empty() {
            next = segment.current_offset() + 1;
        }
        assert!(segment.is_closed() || place + 1 == segments.len());
        let loaded = Segment::load(segment.start_offset(), config.segment_size, segment.log_file()).unwrap();
        let written = loaded.get_messages(segment.start_offset(), u32::MAX);
        let all = segment.get_messages(segment.start_offset(), u32::MAX);
        assert!(written.len() <= all.len());
        for (a, b) in written.iter().zip(all.iter()) {
            assert_eq!((a.offset, a.id, a.timestamp, a.checksum), (b.offset, b.id, b.timestamp, b.checksum));
            assert_eq!(a.payload, b.payload);
        }
    }
    assert_eq!(next, model.len() as u64);
}

#[test]
fn random_appends_read_back_like_a_plain_list() {
    for seed in 0..8 {
        run(
            seed,
            PartitionConfig {
                messages_required_to_save: 1 + (seed as u32 % 3) * 7,
                segment_size: 300 + seed as u32 * 250,
                cache_size: if seed % 2 == 0 { Some(200 + seed * 300) } else { None },
                deduplication_window: match seed % 4 {
                    0 => None,
                    1 => Some(0),
                    2 => Some(5),
                    _ => Some(100),
                },
            },
        );
    }
}
