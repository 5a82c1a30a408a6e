//! A partition: an append-only log of messages with consecutive offsets,
//! kept in segments, with a cache of its newest batches, a window against
//! duplicates, and the offsets that consumers have stored.

use crate::batch::{lemma_total_size_add, total_size, BatchView};
use crate::cache::{evictions_to_free, lemma_total_size_nonnegative, BatchCache};
use crate::chain::{chained, lemma_chain_subrange, log_wf};
use crate::deduplicator::MessageDeduplicator;
use crate::message::MessageView;
use crate::segment::Segment;
use std::collections::HashMap;
use vstd::prelude::*;

pub mod append;
pub mod messages;
pub mod restore;

verus! {

broadcast use vstd::std_specs::hash::group_hash_axioms;

/// What a partition is set up with.
#[derive(Debug, Clone, Copy)]
pub struct PartitionConfig {
    /// The number of appended messages from which on the active segment is
    /// written to its log file.
    pub messages_required_to_save: u32,
    /// The size in bytes from which on a segment is full.
    pub segment_size: u32,
    /// The bytes that the cache may hold; none for a partition without a
    /// cache.
    pub cache_size: Option<u64>,
    /// The number of message ids that the window against duplicates keeps;
    /// none for a partition that accepts every message.
    pub deduplication_window: Option<usize>,
}

/// Who polls: a consumer on its own, with its id and the id of the partition
/// it reads, or a member of a consumer group, with the ids of the group and
/// of the member.
#[derive(Debug, Clone, Copy, PartialEq, Eq, Structural)]
pub enum PollingConsumer {
    Consumer(u32, u32),
    ConsumerGroup(u32, u32),
}

/// An offset that a consumer, or a consumer group, has stored.
#[derive(Debug, Clone, Copy, PartialEq, Eq, Structural)]
pub struct ConsumerOffset {
    pub owner_id: u32,
    pub offset: u64,
}

/// A partition of a topic.
pub struct Partition {
    stream_id: u32,
    topic_id: u32,
    partition_id: u32,
    segments: Vec<Segment>,
    current_offset: u64,
    should_increment_offset: bool,
    messages_count: u64,
    unsaved_messages_count: u32,
    avg_timestamp_delta: u32,
    cache: Option<BatchCache>,
    message_deduplicator: Option<MessageDeduplicator>,
    consumer_offsets: HashMap<u32, ConsumerOffset>,
    consumer_group_offsets: HashMap<u32, ConsumerOffset>,
    config: PartitionConfig,
    max_timestamp: u64,
    log: Ghost<Seq<MessageView>>,
}

/// Whether two consumers store their offsets in one place: both consumers on
/// their own with one id, or both members of one group.
pub open spec fn same_owner(a: PollingConsumer, b: PollingConsumer) -> bool {
    match (a, b) {
        (PollingConsumer::Consumer(x, _), PollingConsumer::Consumer(y, _)) => x == y,
        (PollingConsumer::ConsumerGroup(x, _), PollingConsumer::ConsumerGroup(y, _)) => x == y,
        _ => false,
    }
}

/// The segments `segs` are laid out over `log`: the first starts at offset
/// zero, each starts where the one before it ends, each holds its stretch of
/// `log`, the last ends with `log`, all but the last are closed, and none
/// between the first and the last is empty.
pub open spec fn segments_chain(segs: Seq<Segment>, log: Seq<MessageView>) -> bool {
    &&& forall|i: int| 0 <= i < segs.len() ==> (#[trigger] segs[i]).wf()
    &&& segs.len() > 0 ==> segs[0].start() == 0 && segs.last().next_offset() == log.len()
    &&& forall|i: int|
        0 <= i < segs.len() ==> (#[trigger] segs[i]).next_offset() <= log.len()
            && segs[i].messages() == log.subrange(
            segs[i].start() as int,
            segs[i].next_offset(),
        )
    &&& forall|i: int, j: int|
        0 <= i && j == i + 1 && j < segs.len() ==> (#[trigger] segs[i]).next_offset() == (
        #[trigger] segs[j]).start()
    &&& forall|i: int, j: int|
        0 <= i < j < segs.len() ==> (#[trigger] segs[i]).next_offset() <= (
        #[trigger] segs[j]).start()
    &&& forall|i: int| 0 < i < segs.len() - 1 ==> (#[trigger] segs[i]).messages().len() > 0
    &&& forall|i: int| 0 <= i < segs.len() - 1 ==> (#[trigger] segs[i]).closed()
}

/// The segments `segs` hold `log` between them: they are laid out over it,
/// only the first may be empty, and the last is not full while it is open.
pub open spec fn segments_hold(segs: Seq<Segment>, log: Seq<MessageView>) -> bool {
    &&& segments_chain(segs, log)
    &&& segs.len() == 0 ==> log.len() == 0
    &&& segs.len() > 1 ==> segs.last().messages().len() > 0
    &&& segs.len() > 0 && !segs.last().closed() ==> segs.last().size() < segs.last().max_size()
}

/// The cache `cache` holds the newest batches of `log`: a run out of `log`
/// that ends with it.
pub open spec fn cache_holds(cache: Option<BatchCache>, log: Seq<MessageView>) -> bool {
    match cache {
        Some(cache) => {
            &&& cache.wf()
            &&& chained(cache@, log, 0)
            &&& cache@.len() > 0 ==> cache@.last().last_offset() + 1 == log.len()
        },
        None => true,
    }
}

impl Partition {
    /// The ids of the stream, of the topic and of the partition.
    pub closed spec fn ids(&self) -> (u32, u32, u32) {
        (self.stream_id, self.topic_id, self.partition_id)
    }

    /// The messages of the partition, in the order of their offsets: the
    /// message at the place `i` has the offset `i`.
    pub closed spec fn messages(&self) -> Seq<MessageView> {
        self.log@
    }

    /// The segments of the partition, oldest first.
    pub closed spec fn segments(&self) -> Seq<Segment> {
        self.segments@
    }

    /// The offset of the newest message; zero while there is none.
    pub closed spec fn current(&self) -> u64 {
        self.current_offset
    }

    /// The batches in the cache, oldest first; none for a partition without
    /// a cache.
    pub closed spec fn cached(&self) -> Option<Seq<BatchView>> {
        match self.cache {
            Some(cache) => Some(cache@),
            None => None,
        }
    }

    /// The bytes that the cache may hold; zero for a partition without a
    /// cache.
    pub closed spec fn cache_budget(&self) -> int {
        match self.cache {
            Some(cache) => cache.capacity(),
            None => 0,
        }
    }

    /// The ids in the window against duplicates, oldest first; none for a
    /// partition without one.
    pub closed spec fn window(&self) -> Option<Seq<u128>> {
        match self.message_deduplicator {
            Some(deduplicator) => Some(deduplicator@),
            None => None,
        }
    }

    /// The capacity of the window against duplicates; zero for a partition
    /// without one.
    pub closed spec fn window_capacity(&self) -> int {
        match self.message_deduplicator {
            Some(deduplicator) => deduplicator.cap(),
            None => 0,
        }
    }

    /// The offset that `consumer` has stored, if it has stored one.
    pub closed spec fn stored_offset(&self, consumer: PollingConsumer) -> Option<u64> {
        match consumer {
            PollingConsumer::Consumer(id, _) => if self.consumer_offsets@.contains_key(id) {
                Some(self.consumer_offsets@[id].offset)
            } else {
                None
            },
            PollingConsumer::ConsumerGroup(id, _) => if self.consumer_group_offsets@.contains_key(
                id,
            ) {
                Some(self.consumer_group_offsets@[id].offset)
            } else {
                None
            },
        }
    }

    /// The smoothed distance in time between two messages, in microseconds.
    pub closed spec fn avg_delta(&self) -> u32 {
        self.avg_timestamp_delta
    }

    /// The number of messages appended since the active segment was last
    /// written.
    pub closed spec fn unsaved_count(&self) -> u32 {
        self.unsaved_messages_count
    }

    /// What the partition was set up with.
    pub closed spec fn configuration(&self) -> PartitionConfig {
        self.config
    }

    /// The bytes that the batches in the cache take; none without a cache.
    pub closed spec fn cache_size(&self) -> int {
        match self.cache {
            Some(cache) => cache.used(),
            None => 0,
        }
    }

    /// The partition is as its operations leave it: its segments hold its
    /// messages between them, its counters describe them, and its cache
    /// holds the newest batches.
    pub closed spec fn wf(&self) -> bool {
        let log = self.log@;
        &&& log_wf(log, 0)
        &&& log.len() <= u64::MAX
        &&& segments_hold(self.segments@, log)
        &&& self.current_offset == if log.len() == 0 {
            0
        } else {
            log.len() - 1
        }
        &&& self.should_increment_offset == (log.len() > 0)
        &&& self.messages_count == log.len()
        &&& log.len() > 0 ==> self.max_timestamp == log.last().timestamp
        &&& cache_holds(self.cache, log)
        &&& match self.message_deduplicator {
            Some(deduplicator) => deduplicator.wf(),
            None => true,
        }
    }

    /// What `wf` says of what the partition shows.
    pub proof fn lemma_wf(&self)
        requires
            self.wf(),
        ensures
            log_wf(self.messages(), 0),
            segments_hold(self.segments(), self.messages()),
            self.messages().len() <= u64::MAX,
            self.current() == if self.messages().len() == 0 {
                0
            } else {
                self.messages().len() - 1
            },
            self.cached() matches Some(cached) ==> chained(cached, self.messages(), 0) && (
            cached.len() > 0 ==> cached.last().last_offset() + 1 == self.messages().len()),
    {
    }

    /// The size of the cache is a number of bytes.
    pub proof fn lemma_cache_size(&self)
        ensures
            0 <= self.cache_size() <= u64::MAX,
    {
        match self.cache {
            Some(cache) => {
                cache.lemma_used();
            },
            None => {},
        }
    }

    /// The two partitions hold the same messages in the same segments, with
    /// the same cache.
    closed spec fn same_log(&self, other: Partition) -> bool {
        &&& self.segments == other.segments
        &&& self.current_offset == other.current_offset
        &&& self.should_increment_offset == other.should_increment_offset
        &&& self.messages_count == other.messages_count
        &&& self.cache == other.cache
        &&& self.max_timestamp == other.max_timestamp
        &&& self.log == other.log
    }

    /// The two partitions have the same ids, the same configuration, the
    /// same window against duplicates and the same stored offsets.
    closed spec fn same_settings(&self, other: Partition) -> bool {
        &&& self.stream_id == other.stream_id
        &&& self.topic_id == other.topic_id
        &&& self.partition_id == other.partition_id
        &&& self.message_deduplicator == other.message_deduplicator
        &&& self.consumer_offsets == other.consumer_offsets
        &&& self.consumer_group_offsets == other.consumer_group_offsets
        &&& self.config == other.config
    }

    /// A partition without messages, with one empty segment that starts at
    /// offset zero if `with_segment` says so, and with a cache and a window
    /// against duplicates as `config` says.
    pub fn create(
        stream_id: u32,
        topic_id: u32,
        partition_id: u32,
        with_segment: bool,
        config: PartitionConfig,
    ) -> (partition: Partition)
        ensures
            partition.wf(),
            partition.ids() == (stream_id, topic_id, partition_id),
            partition.messages() == Seq::<MessageView>::empty(),
            partition.segments().len() == if with_segment {
                1nat
            } else {
                0nat
            },
            partition.current() == 0,
            partition.avg_delta() == 0,
            partition.unsaved_count() == 0,
            partition.configuration() == config,
            partition.cached() == match config.cache_size {
                Some(_) => Some(Seq::<BatchView>::empty()),
                None => None,
            },
            partition.cache_budget() == match config.cache_size {
                Some(size) => size as int,
                None => 0,
            },
            partition.window() == match config.deduplication_window {
                Some(_) => Some(Seq::<u128>::empty()),
                None => None,
            },
            partition.window_capacity() == match config.deduplication_window {
                Some(capacity) => capacity as int,
                None => 0,
            },
            forall|consumer: PollingConsumer| partition.stored_offset(consumer) is None,
    {
        let mut segments: Vec<Segment> = Vec::new();
        if with_segment {
            segments.push(Segment::create(0, config.segment_size));
        }
        let cache = match config.cache_size {
            Some(size) => Some(BatchCache::new(size)),
            None => None,
        };
        let message_deduplicator = match config.deduplication_window {
            Some(capacity) => Some(MessageDeduplicator::new(capacity)),
            None => None,
        };
        let partition = Partition {
            stream_id,
            topic_id,
            partition_id,
            segments,
            current_offset: 0,
            should_increment_offset: false,
            messages_count: 0,
            unsaved_messages_count: 0,
            avg_timestamp_delta: 0,
            cache,
            message_deduplicator,
            consumer_offsets: HashMap::new(),
            consumer_group_offsets: HashMap::new(),
            config,
            max_timestamp: 0,
            log: Ghost(Seq::empty()),
        };
        proof {
            let log = partition.log@;
            let segs = partition.segments@;
            if with_segment {
                assert(segs[0].messages() =~= log.subrange(0, 0));
            }
        }
        partition
    }

    /// The id of the partition.
    pub fn partition_id(&self) -> (id: u32)
        ensures
            id == self.ids().2,
    {
        self.partition_id
    }

    /// The id of the topic that the partition belongs to.
    pub fn topic_id(&self) -> (id: u32)
        ensures
            id == self.ids().1,
    {
        self.topic_id
    }

    /// The id of the stream that the partition belongs to.
    pub fn stream_id(&self) -> (id: u32)
        ensures
            id == self.ids().0,
    {
        self.stream_id
    }

    /// The offset of the newest message; zero while there is none.
    pub fn current_offset(&self) -> (offset: u64)
        ensures
            offset == self.current(),
    {
        self.current_offset
    }

    /// The number of messages in the partition.
    pub fn get_messages_count(&self) -> (count: u64)
        requires
            self.wf(),
        ensures
            count == self.messages().len(),
    {
        self.messages_count
    }

    /// The number of segments.
    pub fn get_segments_count(&self) -> (count: usize)
        ensures
            count == self.segments().len(),
    {
        self.segments.len()
    }

    /// The segments, oldest first.
    pub fn get_segments(&self) -> (segments: &Vec<Segment>)
        ensures
            segments@ == self.segments(),
    {
        &self.segments
    }

    /// The smoothed distance in time between two messages, in microseconds.
    pub fn avg_timestamp_delta(&self) -> (delta: u32)
        ensures
            delta == self.avg_delta(),
    {
        self.avg_timestamp_delta
    }

    /// The number of messages appended since the active segment was last
    /// written.
    pub fn unsaved_messages_count(&self) -> (count: u32)
        ensures
            count == self.unsaved_count(),
    {
        self.unsaved_messages_count
    }

    /// The bytes that the batches in the cache take; none without a cache.
    pub fn get_cache_size(&self) -> (size: u64)
        ensures
            size == self.cache_size(),
    {
        match &self.cache {
            Some(cache) => cache.current_size(),
            None => 0,
        }
    }

    /// Stores `offset` for `consumer`, in place of what it had stored.
    pub fn store_consumer_offset(&mut self, consumer: PollingConsumer, offset: u64)
        requires
            old(self).wf(),
        ensures
            final(self).wf(),
            final(self).stored_offset(consumer) == Some(offset),
            final(self).ids() == old(self).ids(),
            forall|other: PollingConsumer|
                !same_owner(other, consumer) ==> final(self).stored_offset(other) == old(
                    self,
                ).stored_offset(other),
            final(self).messages() == old(self).messages(),
            final(self).segments() == old(self).segments(),
            final(self).current() == old(self).current(),
            final(self).cached() == old(self).cached(),
            final(self).cache_budget() == old(self).cache_budget(),
            final(self).window() == old(self).window(),
            final(self).window_capacity() == old(self).window_capacity(),
            final(self).avg_delta() == old(self).avg_delta(),
            final(self).unsaved_count() == old(self).unsaved_count(),
            final(self).configuration() == old(self).configuration(),
    {
        match consumer {
            PollingConsumer::Consumer(id, _) => {
                self.consumer_offsets.insert(id, ConsumerOffset { owner_id: id, offset });
            },
            PollingConsumer::ConsumerGroup(id, _) => {
                self.consumer_group_offsets.insert(id, ConsumerOffset { owner_id: id, offset });
            },
        }
    }

    /// The offset that `consumer` has stored, if it has stored one.
    pub fn get_consumer_offset(&self, consumer: PollingConsumer) -> (offset: Option<u64>)
        ensures
            offset == self.stored_offset(consumer),
    {
        let found = match consumer {
            PollingConsumer::Consumer(id, _) => self.consumer_offsets.get(&id),
            PollingConsumer::ConsumerGroup(id, _) => self.consumer_group_offsets.get(&id),
        };
        match found {
            Some(stored) => Some(stored.offset),
            None => None,
        }
    }

    /// The bytes that the cache gives up when it is asked to free `wanted`
    /// bytes: those of the oldest batches, as few as it takes, or all.
    pub open spec fn gives_up(&self, wanted: int) -> int {
        match self.cached() {
            Some(cached) => total_size(
                cached.subrange(0, evictions_to_free(cached, wanted) as int),
            ),
            None => 0,
        }
    }

    /// A cache gives up no less than nothing, and it is asked for nothing
    /// where it is asked for less.
    pub proof fn lemma_gives_up(&self, wanted: int, owed: int)
        requires
            wanted == if owed <= 0 {
                0
            } else {
                owed
            },
        ensures
            self.gives_up(wanted) == self.gives_up(owed),
            self.gives_up(owed) >= 0,
            match self.cached() {
                Some(cached) => evictions_to_free(cached, wanted) == evictions_to_free(
                    cached,
                    owed,
                ),
                None => true,
            },
    {
        match self.cached() {
            Some(cached) => {
                lemma_total_size_nonnegative(
                    cached.subrange(0, evictions_to_free(cached, owed) as int),
                );
            },
            None => {},
        }
    }

    /// Takes the oldest batches out of the cache until `size_bytes` bytes
    /// are free of them, or the cache is empty. Gives the bytes that were
    /// freed: none for a partition without a cache.
    pub fn clean_cache(&mut self, size_bytes: u64) -> (freed: u64)
        requires
            old(self).wf(),
        ensures
            final(self).wf(),
            final(self).ids() == old(self).ids(),
            final(self).messages() == old(self).messages(),
            final(self).segments() == old(self).segments(),
            final(self).current() == old(self).current(),
            final(self).window() == old(self).window(),
            final(self).window_capacity() == old(self).window_capacity(),
            final(self).avg_delta() == old(self).avg_delta(),
            final(self).unsaved_count() == old(self).unsaved_count(),
            final(self).configuration() == old(self).configuration(),
            forall|consumer: PollingConsumer|
                final(self).stored_offset(consumer) == old(self).stored_offset(consumer),
            final(self).cached() == match old(self).cached() {
                Some(cached) => Some(
                    cached.subrange(
                        evictions_to_free(cached, size_bytes as int) as int,
                        cached.len() as int,
                    ),
                ),
                None => None,
            },
            final(self).cache_budget() == old(self).cache_budget(),
            freed == old(self).cache_size() - final(self).cache_size(),
            freed == old(self).gives_up(size_bytes as int),
            freed >= size_bytes || final(self).cache_size() == 0,
            0 <= final(self).cache_size() <= old(self).cache_size(),
    {
        let mut cache: Option<BatchCache> = None;
        std::mem::swap(&mut cache, &mut self.cache);
        match cache {
            Some(mut cache) => {
                proof {
                    let cached = cache@;
                    let evicted = evictions_to_free(cached, size_bytes as int) as int;
                    lemma_evictions_to_free_bound(cached, size_bytes as int);
                    lemma_chain_subrange(cached, self.log@, 0, evicted, cached.len() as int);
                    cache.lemma_wf();
                    lemma_total_size_add(
                        cached.subrange(0, evicted),
                        cached.subrange(evicted, cached.len() as int),
                    );
                    assert(cached.subrange(0, evicted) + cached.subrange(
                        evicted,
                        cached.len() as int,
                    ) =~= cached);
                }
                let freed = cache.evict_by_size(size_bytes);
                proof {
                    cache.lemma_wf();
                    lemma_total_size_nonnegative(cache@);
                }
                self.cache = Some(cache);
                freed
            },
            None => 0,
        }
    }
}

/// Evictions take no more batches than there are.
pub proof fn lemma_evictions_to_free_bound(bs: Seq<BatchView>, size: int)
    ensures
        evictions_to_free(bs, size) <= bs.len(),
    decreases bs.len(),
{
    if bs.len() > 0 {
        lemma_evictions_to_free_bound(bs.drop_first(), size - bs[0].size_bytes());
    }
}

} // verus!
