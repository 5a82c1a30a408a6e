//! Putting a partition together again out of its segments.

use super::{segments_chain, segments_hold, Partition, PartitionConfig, PollingConsumer};
use crate::batch::BatchView;
use crate::cache::BatchCache;
use crate::chain::{log_wf, stores};
use crate::deduplicator::MessageDeduplicator;
use crate::error::Error;
use crate::message::{message_views, MessageView};
use crate::segment::{last_timestamp, time_index_of, Segment};
use std::collections::HashMap;
use vstd::prelude::*;

verus! {

broadcast use vstd::std_specs::hash::group_hash_axioms;

/// The messages of the segments `segs`, one segment after the other.
pub open spec fn all_messages(segs: Seq<Segment>) -> Seq<MessageView>
    decreases segs.len(),
{
    if segs.len() == 0 {
        Seq::empty()
    } else {
        all_messages(segs.drop_last()) + segs.last().messages()
    }
}

/// The segment at the place `i` of `segs` may stand there in a partition:
/// it starts at offset zero if it is the first and where the segment before
/// it ends if not, it is not empty unless it is the first, it does not go
/// back in time behind the segment before it, it is closed unless it is the
/// last, and not full if it is the last and open; and the last segment ends
/// at an offset that 64 bits hold.
pub open spec fn stands_at(segs: Seq<Segment>, i: int) -> bool {
    let segment = segs[i];
    &&& i == 0 ==> segment.start() == 0
    &&& i > 0 ==> {
        &&& segment.start() == segs[i - 1].next_offset()
        &&& segment.messages().len() > 0
        &&& last_timestamp(segs[i - 1].messages()) matches Some(timestamp) ==> timestamp
            <= segment.messages()[0].timestamp
    }
    &&& i < segs.len() - 1 ==> segment.closed()
    &&& i == segs.len() - 1 ==> {
        &&& segment.closed() || segment.size() < segment.max_size()
        &&& segment.next_offset() <= u64::MAX
    }
}

/// The segments `segs` can be the segments of a partition.
pub open spec fn restorable(segs: Seq<Segment>) -> bool {
    forall|i: int| 0 <= i < segs.len() ==> #[trigger] stands_at(segs, i)
}

impl Partition {
    /// The partition with the given ids and configuration that has the
    /// segments `segments`, oldest first, each of them sound in itself. Its
    /// cache and its window against duplicates are empty, and no consumer
    /// has stored an offset. Segments that cannot be the segments of one
    /// partition are reported as corrupted.
    pub fn restore(
        stream_id: u32,
        topic_id: u32,
        partition_id: u32,
        config: PartitionConfig,
        segments: Vec<Segment>,
    ) -> (restored: Result<Partition, Error>)
        requires
            forall|i: int| 0 <= i < segments.len() ==> (#[trigger] segments[i]).wf(),
        ensures
            match restored {
                Ok(partition) => {
                    &&& restorable(segments@)
                    &&& partition.wf()
                    &&& partition.ids() == (stream_id, topic_id, partition_id)
                    &&& partition.segments() == segments@
                    &&& partition.messages() == all_messages(segments@)
                    &&& partition.avg_delta() == 0
                    &&& partition.unsaved_count() == 0
                    &&& partition.configuration() == config
                    &&& partition.cached() == match config.cache_size {
                        Some(_) => Some(Seq::<BatchView>::empty()),
                        None => None,
                    }
                    &&& partition.cache_budget() == match config.cache_size {
                        Some(size) => size as int,
                        None => 0,
                    }
                    &&& partition.window() == match config.deduplication_window {
                        Some(_) => Some(Seq::<u128>::empty()),
                        None => None,
                    }
                    &&& partition.window_capacity() == match config.deduplication_window {
                        Some(capacity) => capacity as int,
                        None => 0,
                    }
                    &&& forall|consumer: PollingConsumer| partition.stored_offset(consumer) is None
                },
                Err(e) => e == Error::Corruption && !restorable(segments@),
            },
    {
        let n = segments.len();
        let ghost segs = segments@;
        let ghost mut log: Seq<MessageView> = Seq::empty();
        let mut next_offset: u64 = 0;
        let mut floor: Option<u64> = None;
        let mut i: usize = 0;
        proof {
            lemma_restore_start(segs);
        }
        while i < n
            invariant
                n == segments.len(),
                segs == segments@,
                i <= n,
                forall|j: int| 0 <= j < n ==> (#[trigger] segs[j]).wf(),
                restored_upto(segs, i as int, log),
                next_offset == log.len(),
                floor == last_timestamp(log),
            decreases n - i,
        {
            proof {
                lemma_restored_upto(segs, i as int, log);
            }
            match check_segment(&segments, i, next_offset, floor) {
                Some((next, last)) => {
                    proof {
                        lemma_restore_step(segs, i as int, log);
                        log = log + segs[i as int].messages();
                    }
                    next_offset = next;
                    floor = last;
                },
                None => {
                    return Err(Error::Corruption);
                },
            }
            i = i + 1;
        }
        proof {
            lemma_restore_done(segs, log);
        }
        Ok(
            assemble(
                stream_id,
                topic_id,
                partition_id,
                config,
                segments,
                next_offset,
                floor,
                Ghost(log),
            ),
        )
    }
}

/// The first `i` of the segments `segs` may stand where they stand, they
/// are laid out over `log`, and `log` holds their messages.
#[verifier::opaque]
pub open spec fn restored_upto(segs: Seq<Segment>, i: int, log: Seq<MessageView>) -> bool {
    &&& 0 <= i <= segs.len()
    &&& forall|j: int| 0 <= j < i ==> #[trigger] stands_at(segs, j)
    &&& log == all_messages(segs.subrange(0, i))
    &&& log_wf(log, 0)
    &&& log.len() <= u64::MAX
    &&& segments_chain(segs.subrange(0, i), log)
    &&& i > 0 ==> segs[i - 1].next_offset() == log.len()
    &&& i > 0 ==> last_timestamp(log) == last_timestamp(segs[i - 1].messages())
    &&& i == 0 ==> log.len() == 0
}

/// No segment is restored over no message.
proof fn lemma_restore_start(segs: Seq<Segment>)
    ensures
        restored_upto(segs, 0, Seq::empty()),
{
    reveal(restored_upto);
    assert(segs.subrange(0, 0) =~= Seq::<Segment>::empty());
}

/// What `restored_upto` says.
proof fn lemma_restored_upto(segs: Seq<Segment>, i: int, log: Seq<MessageView>)
    requires
        restored_upto(segs, i, log),
    ensures
        0 <= i <= segs.len(),
        forall|j: int| 0 <= j < i ==> #[trigger] stands_at(segs, j),
        log == all_messages(segs.subrange(0, i)),
        log_wf(log, 0),
        log.len() <= u64::MAX,
        segments_chain(segs.subrange(0, i), log),
        i > 0 ==> segs[i - 1].next_offset() == log.len(),
        i > 0 ==> last_timestamp(log) == last_timestamp(segs[i - 1].messages()),
        i == 0 ==> log.len() == 0,
{
    reveal(restored_upto);
}

/// Where the segment at the place `i` may stand there, the first `i + 1`
/// segments are restored over the messages of the first `i` and its own.
proof fn lemma_restore_step(segs: Seq<Segment>, i: int, log: Seq<MessageView>)
    requires
        restored_upto(segs, i, log),
        0 <= i < segs.len(),
        stands_at(segs, i),
        segs[i].wf(),
        segs[i].next_offset() <= u64::MAX,
    ensures
        restored_upto(segs, i + 1, log + segs[i].messages()),
        last_timestamp(log + segs[i].messages()) == last_timestamp(segs[i].messages()),
        (log + segs[i].messages()).len() == segs[i].next_offset(),
{
    reveal(restored_upto);
    let segment = segs[i];
    segment.lemma_wf();
    let upto = segs.subrange(0, i + 1);
    assert(upto.drop_last() =~= segs.subrange(0, i));
    assert(upto.last() == segment);
    if i > 0 {
        assert(segs.subrange(0, i).last() == segs[i - 1]);
        assert(stands_at(segs, i - 1));
    }
    lemma_attach(segs.subrange(0, i), log, segment);
    let log2 = log + segment.messages();
    if segment.messages().len() > 0 {
        assert(log2.last() == segment.messages().last());
    } else {
        assert(log2 =~= log);
    }
    assert(upto =~= segs.subrange(0, i).push(segment));
    assert forall|j: int| 0 <= j < i + 1 implies #[trigger] stands_at(segs, j) by {}
}

/// Where all segments are restored, they hold the messages between them.
proof fn lemma_restore_done(segs: Seq<Segment>, log: Seq<MessageView>)
    requires
        restored_upto(segs, segs.len() as int, log),
    ensures
        restorable(segs),
        segments_hold(segs, log),
        log_wf(log, 0),
        log.len() <= u64::MAX,
        log == all_messages(segs),
{
    reveal(restored_upto);
    let n = segs.len() as int;
    assert(segs.subrange(0, n) =~= segs);
    if n > 0 {
        assert(stands_at(segs, n - 1));
    }
}

/// The partition with the given ids and configuration whose segments
/// `segments` hold the messages `log` between them, up to the offset before
/// `next_offset`, the last of them with the timestamp `floor`.
fn assemble(
    stream_id: u32,
    topic_id: u32,
    partition_id: u32,
    config: PartitionConfig,
    segments: Vec<Segment>,
    next_offset: u64,
    floor: Option<u64>,
    Ghost(log): Ghost<Seq<MessageView>>,
) -> (partition: Partition)
    requires
        segments_hold(segments@, log),
        log_wf(log, 0),
        log.len() == next_offset,
        floor == last_timestamp(log),
    ensures
        partition.wf(),
        partition.ids() == (stream_id, topic_id, partition_id),
        partition.segments() == segments@,
        partition.messages() == log,
        partition.avg_delta() == 0,
        partition.unsaved_count() == 0,
        partition.configuration() == config,
        partition.cached() == match config.cache_size {
            Some(_) => Some(Seq::<BatchView>::empty()),
            None => None,
        },
        partition.cache_budget() == match config.cache_size {
            Some(size) => size as int,
            None => 0,
        },
        partition.window() == match config.deduplication_window {
            Some(_) => Some(Seq::<u128>::empty()),
            None => None,
        },
        partition.window_capacity() == match config.deduplication_window {
            Some(capacity) => capacity as int,
            None => 0,
        },
        forall|consumer: PollingConsumer| partition.stored_offset(consumer) is None,
{
    let cache = match config.cache_size {
        Some(size) => Some(BatchCache::new(size)),
        None => None,
    };
    let message_deduplicator = match config.deduplication_window {
        Some(capacity) => Some(MessageDeduplicator::new(capacity)),
        None => None,
    };
    let max_timestamp = match floor {
        Some(timestamp) => timestamp,
        None => 0,
    };
    Partition {
        stream_id,
        topic_id,
        partition_id,
        segments,
        current_offset: if next_offset == 0 {
            0
        } else {
            next_offset - 1
        },
        should_increment_offset: next_offset > 0,
        messages_count: next_offset,
        unsaved_messages_count: 0,
        avg_timestamp_delta: 0,
        cache,
        message_deduplicator,
        consumer_offsets: HashMap::new(),
        consumer_group_offsets: HashMap::new(),
        config,
        max_timestamp,
        log: Ghost(log),
    }
}

/// Looks at the segment at the place `i`, where the segments before it end
/// at the offset `next_offset` and with a message of the timestamp `floor`.
/// Where the segment may stand at its place, gives the offset behind it and
/// the timestamp of its last message; else nothing.
fn check_segment(
    segments: &Vec<Segment>,
    i: usize,
    next_offset: u64,
    floor: Option<u64>,
) -> (checked: Option<(u64, Option<u64>)>)
    requires
        i < segments.len(),
        forall|j: int| 0 <= j < segments.len() ==> (#[trigger] segments[j]).wf(),
        i == 0 ==> next_offset == 0 && floor is None,
        i > 0 ==> next_offset == segments[i - 1].next_offset() && floor == last_timestamp(
            segments[i - 1].messages(),
        ),
    ensures
        match checked {
            Some((next, last)) => stands_at(segments@, i as int) && next == segments[i
                as int].next_offset() && last == last_timestamp(segments[i as int].messages()),
            None => !restorable(segments@),
        },
{
    let n = segments.len();
    let ghost segs = segments@;
    let segment = &segments[i];
    proof {
        assert(segs[i as int].wf());
        segment.lemma_wf();
        if segment.batches().len() > 0 {
            assert(stores(segment.batches()[0], segment.messages(), segment.start() as int));
        }
    }
    let empty = segment.is_empty();
    let last = i + 1 == n;
    if segment.start_offset() != next_offset || (i > 0 && empty) || (!last && !segment.is_closed())
        || (last && !segment.is_closed() && segment.is_full()) {
        assert(!stands_at(segs, i as int));
        return None;
    }
    if empty {
        return Some((next_offset, None));
    }
    if segment.current_offset() == u64::MAX {
        proof {
            if last {
                assert(!stands_at(segs, i as int));
            } else {
                segs[i + 1].lemma_start();
                assert(!stands_at(segs, i + 1));
            }
        }
        return None;
    }
    let first_messages = segment.get_messages(segment.start_offset(), 1);
    proof {
        let views = message_views(first_messages@);
        assert(segment.read_start(segment.start()) == 0);
        assert(segment.read_end(segment.start(), 1) == 1);
        assert(views.len() == 1);
        assert(views.len() == first_messages@.len());
        assert(views[0] == segment.messages()[0]);
        assert(views[0] == first_messages@[0]@);
    }
    let first_timestamp = first_messages[0].timestamp;
    let in_time = match floor {
        Some(timestamp) => timestamp <= first_timestamp,
        None => true,
    };
    if !in_time {
        assert(!stands_at(segs, i as int));
        return None;
    }
    let time_indexes = segment.time_indexes();
    let last_entry = time_indexes[time_indexes.len() - 1];
    proof {
        let bs = segment.batches();
        let k = bs.len() - 1;
        assert(segment.time_index()[k] == time_index_of(bs[k], segment.start() as int));
        assert(stores(bs[k], segment.messages(), segment.start() as int));
        let held = segment.messages().subrange(
            bs[k].base_offset - segment.start(),
            bs[k].last_offset() - segment.start() + 1,
        );
        assert(held.last() == segment.messages().last());
    }
    Some((segment.current_offset() + 1, Some(last_entry.timestamp)))
}

/// A sound segment that starts where `log` ends, is not empty unless it is
/// the first, and does not go back in time behind `log`, may follow
/// segments that are laid out over `log` and closed.
proof fn lemma_attach(segs: Seq<Segment>, log: Seq<MessageView>, segment: Segment)
    requires
        segments_chain(segs, log),
        log_wf(log, 0),
        segs.len() == 0 ==> log.len() == 0,
        segs.len() > 0 ==> segs.last().closed(),
        segs.len() > 1 ==> segs.last().messages().len() > 0,
        segment.wf(),
        segment.inv(),
        segment.start() == log.len(),
        segs.len() > 0 ==> segment.messages().len() > 0,
        last_timestamp(log) matches Some(timestamp) ==> segment.messages().len() > 0 ==> timestamp
            <= segment.messages()[0].timestamp,
    ensures
        segments_chain(segs.push(segment), log + segment.messages()),
        log_wf(log + segment.messages(), 0),
{
    let ms = segment.messages();
    let log2 = log + ms;
    let segs2 = segs.push(segment);
    let n = segs.len() as int;
    assert forall|i: int, j: int| 0 <= i <= j < log2.len() implies (#[trigger] log2[i]).timestamp
        <= (#[trigger] log2[j]).timestamp by {
        if i < log.len() && j >= log.len() {
            assert(log[i].timestamp <= log.last().timestamp);
            assert(ms[0].timestamp <= ms[j - log.len()].timestamp);
        } else if i >= log.len() {
            assert(ms[i - log.len()].timestamp <= ms[j - log.len()].timestamp);
        }
    }
    assert forall|i: int| 0 <= i < log2.len() implies (#[trigger] log2[i]).offset == i by {
        if i >= log.len() {
            assert(ms[i - log.len()].offset == segment.start() + (i - log.len()));
        }
    }
    assert forall|i: int| 0 <= i < segs2.len() implies (#[trigger] segs2[i]).next_offset()
        <= log2.len() && segs2[i].messages() == log2.subrange(
        segs2[i].start() as int,
        segs2[i].next_offset(),
    ) by {
        if i < n {
            assert(segs2[i] == segs[i]);
            assert(log2.subrange(segs[i].start() as int, segs[i].next_offset()) =~= log.subrange(
                segs[i].start() as int,
                segs[i].next_offset(),
            ));
        } else {
            assert(ms =~= log2.subrange(log.len() as int, log2.len() as int));
        }
    }
    assert forall|i: int, j: int| 0 <= i && j == i + 1 && j < segs2.len() implies (
    #[trigger] segs2[i]).next_offset() == (#[trigger] segs2[j]).start() by {
        if j < n {
            assert(segs[i].next_offset() == segs[j].start());
        }
    }
    assert forall|i: int, j: int| 0 <= i < j < segs2.len() implies (
    #[trigger] segs2[i]).next_offset() <= (#[trigger] segs2[j]).start() by {
        assert(segs2[i] == segs[i]);
        if j < n {
            assert(segs[i].next_offset() <= segs[j].start());
        }
    }
    assert forall|i: int| 0 < i < segs2.len() - 1 implies (#[trigger] segs2[i]).messages().len()
        > 0 by {
        assert(segs2[i] == segs[i]);
    }
    assert forall|i: int| 0 <= i < segs2.len() - 1 implies (#[trigger] segs2[i]).closed() by {
        assert(segs2[i] == segs[i]);
    }
    assert forall|i: int| 0 <= i < segs2.len() implies (#[trigger] segs2[i]).wf() by {
        if i < n {
            assert(segs2[i] == segs[i]);
        }
    }
    if n > 0 {
        assert(segs2[0] == segs[0]);
    }
}

} // verus!
