use bytes::{Bytes, BytesMut};
use std::sync::Arc;
use streaming::batch::RetainedMessageBatch;
use streaming::cache::BatchCache;
use streaming::message::{Message, RetainedMessage};

// A batch of one message with a payload of n bytes takes 24 + 45 + n bytes.
fn batch(offset: u64, payload_len: usize) -> Arc<RetainedMessageBatch> {
    let message = Message::new(offset as u128, Bytes::from(vec![7u8; payload_len]), None);
    let mut buffer = BytesMut::new();
    RetainedMessage::new(offset, 1, &message).extend(&mut buffer);
    Arc::new(RetainedMessageBatch::new(offset, 0, 1, buffer.len() as u32, buffer.freeze()))
}

fn bases(cache: &BatchCache) -> Vec<u64> {
    cache.batches().iter().map(|b| b.base_offset).collect()
}

#[test]
fn batches_are_appended_at_the_tail() {
    let mut cache = BatchCache::new(1000);
    assert!(cache.is_empty());
    assert_eq!(cache.len(), 0);
    assert!(cache.will_fit_into_cache(1000));
    assert!(!cache.will_fit_into_cache(1001));
    cache.append(batch(0, 31));
    cache.append(batch(1, 131));
    assert!(!cache.is_empty());
    assert_eq!(cache.len(), 2);
    assert_eq!(bases(&cache), vec![0, 1]);
    assert_eq!(cache.get(1).base_offset, 1);
    assert_eq!(cache.current_size(), 100 + 200);
    assert!(cache.will_fit_into_cache(700));
    assert!(!cache.will_fit_into_cache(701));
    assert!(!cache.will_fit_into_cache(u64::MAX));
}

#[test]
fn the_oldest_batches_leave_until_the_new_one_fits() {
    let mut cache = BatchCache::new(500);
    for offset in 0..5 {
        cache.append(batch(offset, 31));
    }
    assert_eq!(bases(&cache), vec![0, 1, 2, 3, 4]);
    assert_eq!(cache.current_size(), 500);
    cache.append(batch(5, 31));
    assert_eq!(bases(&cache), vec![1, 2, 3, 4, 5]);
    cache.append(batch(6, 181));
    assert_eq!(bases(&cache), vec![4, 5, 6]);
    assert_eq!(cache.current_size(), 450);
    // A batch that is greater than the budget stands alone.
    cache.append(batch(7, 1000));
    assert_eq!(bases(&cache), vec![7]);
    assert_eq!(cache.current_size(), 1069);
    cache.append(batch(8, 31));
    assert_eq!(bases(&cache), vec![8]);
    assert_eq!(cache.current_size(), 100);
}

#[test]
fn evicting_by_size_frees_at_least_the_bytes_asked_for() {
    let mut cache = BatchCache::new(1000);
    for offset in 0..5 {
        cache.append(batch(offset, 31));
    }
    assert_eq!(cache.evict_by_size(0), 0);
    assert_eq!(bases(&cache), vec![0, 1, 2, 3, 4]);
    assert_eq!(cache.evict_by_size(1), 100);
    assert_eq!(bases(&cache), vec![1, 2, 3, 4]);
    assert_eq!(cache.evict_by_size(200), 200);
    assert_eq!(bases(&cache), vec![3, 4]);
    assert_eq!(cache.evict_by_size(5000), 200);
    assert!(cache.is_empty());
    assert_eq!(cache.current_size(), 0);
    assert_eq!(cache.evict_by_size(10), 0);
}
