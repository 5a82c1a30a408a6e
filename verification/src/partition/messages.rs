//! Reading from a partition: by offset, by timestamp, for a consumer, and
//! the newest batches by size.

use super::{segments_hold, Partition, PollingConsumer};
use crate::batch::{fit_count, BatchView, RetainedMessageBatch};
use crate::chain::{batch_views, clip, lemma_scan_step, load_messages_in_range, stores};
use crate::error::Error;
use crate::index::{find_by_timestamp, last_entry_by};
use crate::message::{message_views, MessageView, RetainedMessage};
use crate::segment::{time_index_of, Segment};
use std::sync::Arc;
use vstd::prelude::*;

verus! {

/// The messages of `log` from the offset `start` on, `count` of them at
/// most.
pub open spec fn slice_from(log: Seq<MessageView>, start: int, count: int) -> Seq<MessageView> {
    log.subrange(
        clip(start, 0, log.len() as int),
        clip(start + count, clip(start, 0, log.len() as int), log.len() as int),
    )
}

/// The last `count` messages of `log`; all of them where it has fewer.
pub open spec fn last_of(log: Seq<MessageView>, count: int) -> Seq<MessageView> {
    log.subrange(
        if count >= log.len() {
            0
        } else {
            log.len() - count
        },
        log.len() as int,
    )
}

/// The messages of `ms` with a timestamp of `timestamp` or more, `count` of
/// them at most.
pub open spec fn at_or_after(ms: Seq<MessageView>, timestamp: u64, count: int) -> Seq<MessageView> {
    let kept = ms.filter(|m: MessageView| m.timestamp >= timestamp);
    kept.subrange(
        0,
        if count < kept.len() {
            count
        } else {
            kept.len() as int
        },
    )
}

/// The number of messages to fetch where `count` are asked for and the
/// index entry is `diff` microseconds older than the timestamp asked for:
/// `count` and, at `avg` microseconds between two messages, 1.35 times the
/// messages that lie in between, rounded up; at most `u32::MAX`.
pub open spec fn adjusted_count(count: u32, diff: int, avg: u32) -> int {
    if avg == 0 {
        count as int
    } else if count + (diff * 135 + avg * 100 - 1) / (avg * 100) > u32::MAX {
        u32::MAX as int
    } else {
        count + (diff * 135 + avg * 100 - 1) / (avg * 100)
    }
}

/// The newest entry of the time indexes of `segs` that is not younger than
/// `timestamp`: the offset of its message and its timestamp.
pub open spec fn indexed_start(segs: Seq<Segment>, timestamp: u64) -> Option<(int, u64)>
    decreases segs.len(),
{
    if segs.len() == 0 {
        None
    } else {
        match last_entry_by(segs.last().time_index(), timestamp) {
            Some(k) => Some(
                (
                    segs.last().start() + segs.last().time_index()[k].relative_offset,
                    segs.last().time_index()[k].timestamp,
                ),
            ),
            None => indexed_start(segs.drop_last(), timestamp),
        }
    }
}

/// The newest batches out of `segs` that fit together into `budget` bytes,
/// in the order of their offsets: all batches of the newest segments as long
/// as whole segments fit, then the newest batches that fit of the segment
/// that does not. A segment without batches ends the walk.
pub open spec fn newest_by_size(segs: Seq<Segment>, budget: int) -> Seq<BatchView>
    decreases segs.len(),
{
    if segs.len() == 0 {
        Seq::empty()
    } else {
        let segment = segs.last();
        if segment.size() == 0 {
            Seq::empty()
        } else if segment.size() > budget {
            segment.batches().subrange(
                segment.batches().len() - fit_count(segment.batches(), budget),
                segment.batches().len() as int,
            )
        } else if budget - segment.size() == 0 {
            segment.batches()
        } else {
            newest_by_size(segs.drop_last(), budget - segment.size()) + segment.batches()
        }
    }
}

/// The place of the last of `segs` that starts at or before `offset`; zero
/// where there is none.
pub open spec fn segment_for(segs: Seq<Segment>, offset: u64) -> int
    decreases segs.len(),
{
    if segs.len() == 0 {
        0
    } else if segs.last().start() <= offset {
        segs.len() - 1
    } else {
        segment_for(segs.drop_last(), offset)
    }
}

/// The number of `segs`, counted from the first, that start at or before
/// `offset`.
pub open spec fn segments_upto(segs: Seq<Segment>, offset: u64) -> int
    decreases segs.len(),
{
    if segs.len() == 0 {
        0
    } else if segs.last().start() <= offset {
        segs.len() as int
    } else {
        segments_upto(segs.drop_last(), offset)
    }
}

/// The segment `segment` is sound and holds the stretch of `log` at its
/// offsets.
pub open spec fn holds_stretch(segment: Segment, log: Seq<MessageView>) -> bool {
    &&& segment.wf()
    &&& segment.next_offset() <= log.len()
    &&& segment.messages() == log.subrange(segment.start() as int, segment.next_offset())
}

/// The segments `segments` are a run out of a partition with the messages
/// `log`: each holds its stretch of `log` and starts where the one before
/// it ends.
pub open spec fn segment_run(segments: Seq<&Segment>, log: Seq<MessageView>) -> bool {
    &&& forall|i: int| 0 <= i < segments.len() ==> holds_stretch(*#[trigger] segments[i], log)
    &&& forall|i: int, j: int|
        0 <= i && j == i + 1 && j < segments.len() ==> (#[trigger] segments[i]).next_offset() == (
        #[trigger] segments[j]).start()
}

impl Partition {
    /// Whether the cache holds every message from `start_offset` to
    /// `end_offset`: it is there and not empty, the range is not empty, it
    /// starts at or behind the first cached offset, and it ends at or before
    /// the newest message.
    pub open spec fn cache_covers(&self, start_offset: u64, end_offset: u64) -> bool {
        &&& self.cached() matches Some(cached)
        &&& cached.len() > 0
        &&& cached[0].base_offset <= start_offset <= end_offset <= self.current()
    }

    /// What the time index gives for a read by timestamp: the offset to read
    /// from and the number of messages to read. The newest entry that is not
    /// younger than `timestamp` names the offset; where its timestamp is the
    /// one asked for, `count` messages are read, else more. None where the
    /// index has no such entry.
    pub open spec fn indexed_plan(&self, timestamp: u64, count: u32) -> Option<(u64, u32)> {
        match indexed_start(self.segments(), timestamp) {
            Some((offset, indexed)) => Some(
                (
                    offset as u64,
                    if indexed == timestamp {
                        count
                    } else {
                        adjusted_count(count, timestamp - indexed, self.avg_delta()) as u32
                    },
                ),
            ),
            None => None,
        }
    }

    /// The messages that a read by timestamp fetches before it drops the
    /// ones that are too old: those that `indexed_plan` names. Where it
    /// names none, every entry of the index being younger than `timestamp`,
    /// the read starts at offset zero and reaches as far behind `count` as
    /// the first entry of the oldest segment names; and without any entry
    /// nothing is read.
    pub open spec fn fetched_by_timestamp(&self, timestamp: u64, count: u32) -> Seq<MessageView> {
        match self.indexed_plan(timestamp, count) {
            Some((offset, fetch)) => slice_from(self.messages(), offset as int, fetch as int),
            None => if self.segments().len() > 0 && self.segments()[0].time_index().len() > 0 {
                slice_from(
                    self.messages(),
                    0,
                    if count + self.segments()[0].time_index()[0].relative_offset > u32::MAX {
                        u32::MAX as int
                    } else {
                        count + self.segments()[0].time_index()[0].relative_offset
                    },
                )
            } else {
                Seq::empty()
            },
        }
    }

    /// The offset at which a read of `count` messages from `offset` ends:
    /// the last offset asked for, or the last offset of the newest segment
    /// where that comes first.
    pub fn get_end_offset(&self, offset: u64, count: u32) -> (end_offset: u64)
        requires
            self.wf(),
            count >= 1,
            self.segments().len() > 0,
        ensures
            end_offset == if offset + count - 1 <= self.segments().last().current() {
                offset + count - 1
            } else {
                self.segments().last().current() as int
            },
            end_offset == if offset + count - 1 <= self.current() {
                offset + count - 1
            } else {
                self.current() as int
            },
    {
        let mut end_offset = offset.saturating_add((count - 1) as u64);
        let segment = &self.segments[self.segments.len() - 1];
        proof {
            segment.lemma_wf();
        }
        let max_offset = segment.current_offset();
        if end_offset > max_offset {
            end_offset = max_offset;
        }
        end_offset
    }

    /// The segments that a read from `start_offset` to `end_offset` has to
    /// look at: those from the last segment that starts at or before
    /// `start_offset` on (from the first where there is none), as far as
    /// they start at or before `end_offset`.
    pub fn filter_segments_by_offsets(&self, start_offset: u64, end_offset: u64) -> (filtered: Vec<
        &Segment,
    >)
        requires
            self.wf(),
        ensures
            filtered.len() == segments_upto(self.segments(), end_offset) - clip(
                segment_for(self.segments(), start_offset),
                0,
                segments_upto(self.segments(), end_offset),
            ),
            forall|i: int|
                0 <= i < filtered.len() ==> *(#[trigger] filtered[i]) == self.segments()[
                    segment_for(self.segments(), start_offset) + i],
    {
        let n = self.segments.len();
        let ghost segs = self.segments@;
        let mut slice_start: usize = 0;
        let mut idx: usize = n;
        assert(segs.subrange(0, n as int) =~= segs);
        while idx > 0
            invariant_except_break
                slice_start == 0,
                segment_for(segs, start_offset) == segment_for(
                    segs.subrange(0, idx as int),
                    start_offset,
                ),
            invariant
                n == self.segments.len(),
                segs == self.segments@,
                idx <= n,
            ensures
                slice_start == segment_for(segs, start_offset),
                slice_start < n || n == 0,
            decreases idx,
        {
            idx = idx - 1;
            proof {
                assert(segs.subrange(0, idx + 1).last() == segs[idx as int]);
                assert(segs.subrange(0, idx + 1).drop_last() =~= segs.subrange(0, idx as int));
            }
            if self.segments[idx].start_offset() <= start_offset {
                slice_start = idx;
                break ;
            }
        }
        let mut filtered: Vec<&Segment> = Vec::new();
        let mut k: usize = slice_start;
        proof {
            lemma_segments_upto(segs, end_offset, slice_start as int);
        }
        while k < n && self.segments[k].start_offset() <= end_offset
            invariant
                n == self.segments.len(),
                segs == self.segments@,
                self.wf(),
                slice_start <= k <= n,
                filtered.len() == k - slice_start,
                forall|i: int|
                    0 <= i < filtered.len() ==> *(#[trigger] filtered[i]) == segs[slice_start + i],
                forall|i: int| slice_start <= i < k ==> (#[trigger] segs[i]).start() <= end_offset,
            decreases n - k,
        {
            filtered.push(&self.segments[k]);
            k = k + 1;
        }
        proof {
            lemma_segments_upto(segs, end_offset, k as int);
            if k > slice_start {
                assert(segs[k - 1].start() <= end_offset);
            }
        }
        filtered
    }

    /// The messages that `segment`, out of a partition with the messages
    /// `log`, gives for a read of `count` messages from `offset`.
    fn get_messages_from_segment(
        segment: &Segment,
        offset: u64,
        count: u32,
        Ghost(log): Ghost<Seq<MessageView>>,
    ) -> (messages: Vec<RetainedMessage>)
        requires
            holds_stretch(*segment, log),
        ensures
            message_views(messages@) == log.subrange(
                clip(offset as int, segment.start() as int, segment.next_offset()),
                clip(
                    offset + count,
                    clip(offset as int, segment.start() as int, segment.next_offset()),
                    segment.next_offset(),
                ),
            ),
    {
        let messages = segment.get_messages(offset, count);
        proof {
            let a = segment.read_start(offset);
            let z = segment.read_end(offset, count);
            assert(segment.messages().subrange(a, z) =~= log.subrange(
                segment.start() + a,
                segment.start() + z,
            ));
        }
        messages
    }

    /// The messages that the segments `segments`, taken in their order, give
    /// for a read of `count` messages from `offset`. The segments are a run
    /// out of a partition with the messages `log`.
    fn get_messages_from_segments(
        segments: &Vec<&Segment>,
        offset: u64,
        count: u32,
        Ghost(log): Ghost<Seq<MessageView>>,
    ) -> (messages: Vec<RetainedMessage>)
        requires
            segments.len() > 0,
            segment_run(segments@, log),
        ensures
            message_views(messages@) == log.subrange(
                clip(offset as int, segments[0].start() as int, segments@.last().next_offset()),
                clip(
                    offset + count,
                    clip(offset as int, segments[0].start() as int, segments@.last().next_offset()),
                    segments@.last().next_offset(),
                ),
            ),
    {
        let mut messages: Vec<RetainedMessage> = Vec::new();
        let n = segments.len();
        let ghost run_lo = segments[0].start() as int;
        let ghost run_hi = segments@.last().next_offset();
        let ghost lo = clip(offset as int, run_lo, run_hi);
        let ghost hi = clip(offset + count, lo, run_hi);
        let mut i: usize = 0;
        proof {
            lemma_segment_run_bounds(segments@, log, 0);
            lemma_segment_run_bounds(segments@, log, n - 1);
            assert(message_views(messages@) =~= log.subrange(lo, lo));
        }
        while i < n
            invariant
                n == segments.len(),
                n > 0,
                i <= n,
                segment_run(segments@, log),
                run_lo == segments[0].start(),
                run_hi == segments@.last().next_offset(),
                lo == clip(offset as int, run_lo, run_hi),
                hi == clip(offset + count, lo, run_hi),
                0 <= run_lo <= lo <= hi <= run_hi <= log.len(),
                message_views(messages@) == log.subrange(
                    lo,
                    clip(
                        if i < n {
                            segments[i as int].start() as int
                        } else {
                            run_hi
                        },
                        lo,
                        hi,
                    ),
                ),
            decreases n - i,
        {
            let segment = segments[i];
            let ghost base = segment.start() as int;
            let ghost next = segment.next_offset();
            let ghost cut = clip(base, lo, hi);
            proof {
                lemma_segment_run_bounds(segments@, log, i as int);
                if i + 1 < n {
                    assert(segments@[i as int].next_offset() == segments@[i + 1].start());
                }
                if base < next {
                    lemma_scan_step(base, next - 1, offset as int, offset + count - 1, run_lo, run_hi);
                }
            }
            let segment_messages = segment.get_messages(offset, count);
            let ghost prev = message_views(messages@);
            let ghost added = message_views(segment_messages@);
            let mut segment_messages = segment_messages;
            messages.append(&mut segment_messages);
            proof {
                assert(message_views(messages@) =~= prev + added);
                let a = segment.read_start(offset);
                let z = segment.read_end(offset, count);
                assert(segment.messages().subrange(a, z) =~= log.subrange(base + a, base + z));
                assert(log.subrange(lo, cut) + log.subrange(cut, clip(next, lo, hi))
                    =~= log.subrange(lo, clip(next, lo, hi)));
            }
            i = i + 1;
        }
        messages
    }

    /// The messages from `start_offset` to `end_offset` out of the cache.
    /// None is a miss: the partition has no cache, the cache is empty, the
    /// range is empty or ends behind the newest message, or it starts before
    /// the oldest batch in the cache.
    pub fn try_get_messages_from_cache(&self, start_offset: u64, end_offset: u64) -> (found: Option<
        Vec<RetainedMessage>,
    >)
        requires
            self.wf(),
        ensures
            match found {
                Some(messages) => {
                    &&& self.cache_covers(start_offset, end_offset)
                    &&& message_views(messages@) == self.messages().subrange(
                        start_offset as int,
                        end_offset + 1,
                    )
                },
                None => !self.cache_covers(start_offset, end_offset),
            },
    {
        let cache = match &self.cache {
            Some(cache) => cache,
            None => {
                return None;
            },
        };
        if cache.is_empty() || start_offset > end_offset || end_offset > self.current_offset {
            return None;
        }
        let first_buffered_offset = cache.get(0).base_offset;
        if start_offset >= first_buffered_offset {
            return self.load_messages_from_cache(start_offset, end_offset);
        }
        None
    }

    /// The messages from `start_offset` to `end_offset` out of the cache:
    /// the batches are walked from the last one that starts at or before
    /// `start_offset`. None, a miss, where the cache does not give every
    /// message of the range.
    pub fn load_messages_from_cache(&self, start_offset: u64, end_offset: u64) -> (found: Option<
        Vec<RetainedMessage>,
    >)
        requires
            self.wf(),
        ensures
            match found {
                Some(messages) => {
                    &&& self.cache_covers(start_offset, end_offset)
                    &&& message_views(messages@) == self.messages().subrange(
                        start_offset as int,
                        end_offset + 1,
                    )
                },
                None => !self.cache_covers(start_offset, end_offset),
            },
    {
        let cache = match &self.cache {
            Some(cache) => cache,
            None => {
                return None;
            },
        };
        if start_offset > end_offset || cache.is_empty() {
            return None;
        }
        let batches = cache.batches();
        let ghost log = self.log@;
        let ghost bs = batch_views(batches@);
        let mut slice_start: usize = 0;
        let mut idx: usize = batches.len();
        while idx > 0
            invariant_except_break
                slice_start == 0,
            invariant
                idx <= batches.len(),
                batches.len() > 0,
                bs == batch_views(batches@),
            ensures
                slice_start < batches.len(),
                slice_start > 0 ==> bs[slice_start as int].base_offset <= start_offset,
            decreases idx,
        {
            idx = idx - 1;
            if batches[idx].base_offset <= start_offset {
                slice_start = idx;
                break ;
            }
        }
        let messages = load_messages_in_range(
            batches,
            slice_start,
            start_offset,
            end_offset,
            Ghost(log),
            Ghost(0),
        );
        proof {
            assert(stores(bs[0], log, 0));
            assert(stores(bs[bs.len() - 1], log, 0));
            assert(message_views(messages@).len() == messages.len());
        }
        if end_offset - start_offset >= messages.len() as u64 {
            return None;
        }
        Some(messages)
    }

    /// The messages with offsets from `start_offset` on, `count` of them at
    /// most, fewer where the partition ends before. The cache serves the
    /// read where it covers it; else the segments that reach into the range
    /// do. A read of no messages is refused.
    pub fn get_messages_by_offset(&self, start_offset: u64, count: u32) -> (read: Result<
        Vec<RetainedMessage>,
        Error,
    >)
        requires
            self.wf(),
        ensures
            match read {
                Ok(messages) => count > 0 && message_views(messages@) == slice_from(
                    self.messages(),
                    start_offset as int,
                    count as int,
                ),
                Err(e) => e == Error::InvalidMessagesCount && count == 0,
            },
    {
        let ghost log = self.log@;
        if count == 0 {
            return Err(Error::InvalidMessagesCount);
        }
        if self.segments.is_empty() {
            let messages: Vec<RetainedMessage> = Vec::new();
            assert(message_views(messages@) =~= slice_from(log, start_offset as int, count as int));
            return Ok(messages);
        }
        if start_offset > self.current_offset {
            let messages: Vec<RetainedMessage> = Vec::new();
            assert(message_views(messages@) =~= slice_from(log, start_offset as int, count as int));
            return Ok(messages);
        }
        let end_offset = self.get_end_offset(start_offset, count);
        let messages = self.try_get_messages_from_cache(start_offset, end_offset);
        if let Some(messages) = messages {
            return Ok(messages);
        }
        let segments = self.filter_segments_by_offsets(start_offset, end_offset);
        proof {
            lemma_filtered_segments(self.segments@, log, start_offset, end_offset, segments@);
        }
        match segments.len() {
            0 => {
                let messages: Vec<RetainedMessage> = Vec::new();
                Ok(messages)
            },
            1 => Ok(Self::get_messages_from_segment(segments[0], start_offset, count, Ghost(log))),
            _ => Ok(Self::get_messages_from_segments(&segments, start_offset, count, Ghost(log))),
        }
    }

    /// The first `count` messages of the partition.
    pub fn get_first_messages(&self, count: u32) -> (read: Result<Vec<RetainedMessage>, Error>)
        requires
            self.wf(),
        ensures
            match read {
                Ok(messages) => count > 0 && message_views(messages@) == slice_from(
                    self.messages(),
                    0,
                    count as int,
                ),
                Err(e) => e == Error::InvalidMessagesCount && count == 0,
            },
    {
        self.get_messages_by_offset(0, count)
    }

    /// The last `count` messages of the partition; all of them where it has
    /// fewer.
    pub fn get_last_messages(&self, count: u32) -> (read: Result<Vec<RetainedMessage>, Error>)
        requires
            self.wf(),
        ensures
            match read {
                Ok(messages) => count > 0 && message_views(messages@) == last_of(
                    self.messages(),
                    count as int,
                ),
                Err(e) => e == Error::InvalidMessagesCount && count == 0,
            },
    {
        if count == 0 {
            return Err(Error::InvalidMessagesCount);
        }
        let mut count = count as u64;
        if self.current_offset < u64::MAX && count > self.current_offset + 1 {
            count = self.current_offset + 1
        }
        let start_offset = self.current_offset - (count - 1);
        self.get_messages_by_offset(start_offset, count as u32)
    }

    /// The messages that `consumer` has not seen yet, `count` of them at
    /// most: those behind the offset that it has stored, or the first
    /// messages of the partition where it has stored none.
    pub fn get_next_messages(&self, consumer: PollingConsumer, count: u32) -> (read: Result<
        Vec<RetainedMessage>,
        Error,
    >)
        requires
            self.wf(),
        ensures
            match read {
                Ok(messages) => count > 0 && message_views(messages@) == slice_from(
                    self.messages(),
                    match self.stored_offset(consumer) {
                        Some(offset) => offset + 1,
                        None => 0,
                    },
                    count as int,
                ),
                Err(e) => e == Error::InvalidMessagesCount && count == 0,
            },
    {
        if count == 0 {
            return Err(Error::InvalidMessagesCount);
        }
        let consumer_offset = match self.get_consumer_offset(consumer) {
            Some(offset) => offset,
            None => {
                return self.get_first_messages(count);
            },
        };
        if consumer_offset >= self.current_offset {
            let messages: Vec<RetainedMessage> = Vec::new();
            assert(message_views(messages@) =~= slice_from(
                self.log@,
                consumer_offset + 1,
                count as int,
            ));
            return Ok(messages);
        }
        let offset = consumer_offset + 1;
        self.get_messages_by_offset(offset, count)
    }

    /// The number of messages to fetch for a read of `count` messages by
    /// timestamp, where the index gave an entry that is older than the
    /// timestamp asked for: `count`, and on top the number of messages that,
    /// at the smoothed distance between two messages, lie between the two
    /// timestamps, with a third more for good measure.
    pub fn calculate_adjusted_timestamp_message_count(
        &self,
        count: u32,
        timestamp: u64,
        timestamp_from_index: u64,
    ) -> (adjusted: u32)
        requires
            timestamp_from_index <= timestamp,
        ensures
            adjusted == adjusted_count(
                count,
                timestamp - timestamp_from_index,
                self.avg_delta(),
            ),
            adjusted >= count,
    {
        if self.avg_timestamp_delta == 0 {
            return count;
        }
        let timestamp_diff: u64 = timestamp - timestamp_from_index;
        let scaled: u128 = timestamp_diff as u128 * 135;
        let unit: u128 = self.avg_timestamp_delta as u128 * 100;
        let overfetch_value: u128 = (scaled + unit - 1) / unit;
        if overfetch_value > (u32::MAX - count) as u128 {
            u32::MAX
        } else {
            count + overfetch_value as u32
        }
    }

    /// The messages with a timestamp of `timestamp` or more, `count` of them
    /// at most, as far as the time index finds them: the newest entry of the
    /// index that is not younger than `timestamp` gives the offset to read
    /// from, and so many messages are read that `count` of them are likely
    /// to be young enough. Of those read, the ones that are young enough are
    /// kept. A read of no messages is refused.
    pub fn get_messages_by_timestamp(&self, timestamp: u64, count: u32) -> (read: Result<
        Vec<RetainedMessage>,
        Error,
    >)
        requires
            self.wf(),
        ensures
            match read {
                Ok(messages) => count > 0 && message_views(messages@) == at_or_after(
                    self.fetched_by_timestamp(timestamp, count),
                    timestamp,
                    count as int,
                ),
                Err(e) => e == Error::InvalidMessagesCount && count == 0,
            },
    {
        if count == 0 {
            return Err(Error::InvalidMessagesCount);
        }
        let ghost segs = self.segments@;
        let ghost log = self.log@;
        let mut plan: Option<(u64, u32)> = None;
        let mut i: usize = self.segments.len();
        assert(segs.subrange(0, i as int) =~= segs);
        while i > 0
            invariant_except_break
                plan is None,
                indexed_start(segs, timestamp) == indexed_start(
                    segs.subrange(0, i as int),
                    timestamp,
                ),
            invariant
                self.wf(),
                segs == self.segments@,
                i <= segs.len(),
            ensures
                plan == self.indexed_plan(timestamp, count),
                plan matches Some((_, fetch)) ==> fetch >= count,
            decreases i,
        {
            i = i - 1;
            let segment = &self.segments[i];
            proof {
                assert(segs.subrange(0, i + 1).last() == segs[i as int]);
                assert(segs.subrange(0, i + 1).drop_last() =~= segs.subrange(0, i as int));
                assert(segs[i as int].wf());
                segment.lemma_wf();
            }
            let time_indexes = segment.time_indexes();
            if let Some(idx) = find_by_timestamp(time_indexes, timestamp) {
                let found_index = time_indexes[idx];
                proof {
                    let b = segment.batches()[idx as int];
                    assert(segment.time_index()[idx as int] == time_index_of(
                        b,
                        segment.start() as int,
                    ));
                    assert(b.last_offset() - segment.start() <= u32::MAX);
                    assert(stores(b, segment.messages(), segment.start() as int));
                }
                let start_offset = segment.start_offset() + found_index.relative_offset as u64;
                if found_index.timestamp == timestamp {
                    plan = Some((start_offset, count));
                } else {
                    let adjusted_count = self.calculate_adjusted_timestamp_message_count(
                        count,
                        timestamp,
                        found_index.timestamp,
                    );
                    plan = Some((start_offset, adjusted_count));
                }
                break ;
            }
        }
        if plan.is_none() && self.segments.len() > 0 {
            let time_indexes = self.segments[0].time_indexes();
            if time_indexes.len() > 0 {
                let overfetch_value = time_indexes[0].relative_offset;
                plan = Some((0, count.saturating_add(overfetch_value)));
            }
        }
        let (start_offset, fetch_count) = match plan {
            Some(plan) => plan,
            None => {
                let messages: Vec<RetainedMessage> = Vec::new();
                proof {
                    lemma_at_or_after_sorted(Seq::<MessageView>::empty(), timestamp, 0);
                    assert(message_views(messages@) =~= at_or_after(
                        Seq::<MessageView>::empty(),
                        timestamp,
                        count as int,
                    ));
                }
                return Ok(messages);
            },
        };
        let mut fetched = match self.get_messages_by_offset(start_offset, fetch_count) {
            Ok(messages) => messages,
            Err(e) => {
                return Err(e);
            },
        };
        let ghost all = message_views(fetched@);
        let mut first: usize = 0;
        while first < fetched.len() && fetched[first].timestamp < timestamp
            invariant
                first <= fetched.len(),
                all == message_views(fetched@),
                forall|j: int| 0 <= j < first ==> (#[trigger] all[j]).timestamp < timestamp,
            decreases fetched.len() - first,
        {
            first = first + 1;
        }
        proof {
            assert forall|a: int, b: int| 0 <= a <= b < all.len() implies (
            #[trigger] all[a]).timestamp <= (#[trigger] all[b]).timestamp by {
                let base = clip(start_offset as int, 0, log.len() as int);
                assert(all[a] == log[base + a]);
                assert(all[b] == log[base + b]);
            }
            lemma_at_or_after_sorted(all, timestamp, first as int);
        }
        let mut kept = fetched.split_off(first);
        kept.truncate(count as usize);
        proof {
            let tail = all.subrange(first as int, all.len() as int);
            assert(message_views(kept@) =~= tail.subrange(
                0,
                if count < tail.len() {
                    count as int
                } else {
                    tail.len() as int
                },
            ));
        }
        Ok(kept)
    }

    /// The newest batches of the partition that fit together into
    /// `size_bytes` bytes, in the order of their offsets. The segments are
    /// gone through from the newest back: a segment that fits as a whole
    /// gives all its batches, and the first that does not gives its newest
    /// batches that fit. An empty segment ends the walk.
    pub fn get_newest_messages_by_size(&self, size_bytes: u64) -> (read: Result<
        Vec<Arc<RetainedMessageBatch>>,
        Error,
    >)
        requires
            self.wf(),
        ensures
            read matches Ok(batches) && batch_views(batches@) == newest_by_size(
                self.segments(),
                size_bytes as int,
            ),
    {
        let mut batches: Vec<Arc<RetainedMessageBatch>> = Vec::new();
        let ghost segs = self.segments@;
        if self.segments.is_empty() {
            assert(batch_views(batches@) =~= newest_by_size(segs, size_bytes as int));
            return Ok(batches);
        }
        let mut remaining_size = size_bytes;
        let mut i: usize = self.segments.len();
        proof {
            assert(segs.subrange(0, i as int) =~= segs);
            assert(batch_views(batches@) =~= Seq::<BatchView>::empty());
            assert(newest_by_size(segs, size_bytes as int) + Seq::<BatchView>::empty()
                =~= newest_by_size(segs, size_bytes as int));
        }
        while i > 0
            invariant_except_break
                newest_by_size(segs, size_bytes as int) == newest_by_size(
                    segs.subrange(0, i as int),
                    remaining_size as int,
                ) + batch_views(batches@),
                remaining_size > 0 || i == segs.len(),
            invariant
                self.wf(),
                segs == self.segments@,
                i <= segs.len(),
            ensures
                batch_views(batches@) == newest_by_size(segs, size_bytes as int),
            decreases i,
        {
            i = i - 1;
            let segment = &self.segments[i];
            let ghost before = batch_views(batches@);
            proof {
                assert(segs.subrange(0, i + 1).last() == segs[i as int]);
                assert(segs.subrange(0, i + 1).drop_last() =~= segs.subrange(0, i as int));
                assert(segs[i as int].wf());
            }
            let segment_size_bytes = segment.size_bytes();
            if segment_size_bytes == 0 {
                proof {
                    assert(Seq::<BatchView>::empty() + before =~= before);
                }
                break ;
            }
            if segment_size_bytes > remaining_size {
                let mut partial_messages = segment.get_newest_message_batches_by_size(
                    remaining_size,
                );
                let ghost partial = batch_views(partial_messages@);
                partial_messages.append(&mut batches);
                batches = partial_messages;
                proof {
                    assert(batch_views(batches@) =~= partial + before);
                }
                break ;
            }
            let mut segment_batches = segment.get_all_batches();
            let ghost all = batch_views(segment_batches@);
            segment_batches.append(&mut batches);
            batches = segment_batches;
            remaining_size = remaining_size - segment_size_bytes;
            proof {
                assert(batch_views(batches@) =~= all + before);
                let rest = if remaining_size == 0 {
                    Seq::<BatchView>::empty()
                } else {
                    newest_by_size(segs.subrange(0, i as int), remaining_size as int)
                };
                assert((rest + all) + before =~= rest + (all + before));
            }
            if remaining_size == 0 {
                proof {
                    assert(Seq::<BatchView>::empty() + (all + before) =~= all + before);
                }
                break ;
            }
        }
        proof {
            if i == 0 {
                assert(segs.subrange(0, 0) =~= Seq::<Segment>::empty());
                assert(Seq::<BatchView>::empty() + batch_views(batches@) =~= batch_views(
                    batches@,
                ));
            }
        }
        Ok(batches)
    }
}

/// Among messages whose timestamps never go back, those with a timestamp of
/// `timestamp` or more are the ones from the first such message on.
pub proof fn lemma_at_or_after_sorted(ms: Seq<MessageView>, timestamp: u64, first: int)
    requires
        0 <= first <= ms.len(),
        forall|a: int, b: int|
            0 <= a <= b < ms.len() ==> (#[trigger] ms[a]).timestamp <= (#[trigger] ms[b]).timestamp,
        forall|j: int| 0 <= j < first ==> (#[trigger] ms[j]).timestamp < timestamp,
        first < ms.len() ==> ms[first].timestamp >= timestamp,
    ensures
        ms.filter(|m: MessageView| m.timestamp >= timestamp) == ms.subrange(
            first,
            ms.len() as int,
        ),
    decreases ms.len(),
{
    reveal(Seq::filter);
    let pred = |m: MessageView| m.timestamp >= timestamp;
    if ms.len() == 0 {
        assert(ms.filter(pred) =~= ms.subrange(first, ms.len() as int));
    } else {
        let rest = ms.drop_last();
        if first == ms.len() {
            lemma_at_or_after_sorted(rest, timestamp, first - 1);
            assert(ms.filter(pred) =~= ms.subrange(first, ms.len() as int));
        } else {
            assert(ms[first].timestamp <= ms.last().timestamp);
            lemma_at_or_after_sorted(rest, timestamp, first);
            assert(rest.subrange(first, rest.len() as int).push(ms.last()) =~= ms.subrange(
                first,
                ms.len() as int,
            ));
        }
    }
}

/// Among segments whose start offsets rise, those that start at or before
/// `offset` are the first so many: `k` is their number where the segments
/// before the place `k` start at or before `offset` and the one at `k`, if
/// there is one, does not.
pub proof fn lemma_segments_upto(segs: Seq<Segment>, offset: u64, k: int)
    requires
        0 <= k <= segs.len(),
        forall|i: int, j: int|
            0 <= i < j < segs.len() ==> (#[trigger] segs[i]).start() <= (#[trigger] segs[j]).start(),
    ensures
        (k > 0 ==> segs[k - 1].start() <= offset) && (k < segs.len() ==> segs[k].start() > offset)
            ==> segments_upto(segs, offset) == k,
        k < segs.len() && segs[k].start() <= offset ==> segments_upto(segs, offset) > k,
        k < segs.len() && segs[k].start() > offset ==> segments_upto(segs, offset) <= k,
        0 <= segments_upto(segs, offset) <= segs.len(),
    decreases segs.len(),
{
    if segs.len() > 0 {
        let rest = segs.drop_last();
        if segs.last().start() <= offset {
            if k < segs.len() {
                assert(segs[k].start() <= segs.last().start());
            }
        } else {
            lemma_segments_upto(rest, offset, 0);
            if k < segs.len() {
                lemma_segments_upto(rest, offset, k);
                if k == rest.len() {
                } else {
                    assert(rest[k] == segs[k]);
                }
                if k > 0 {
                    assert(rest[k - 1] == segs[k - 1]);
                }
            } else {
                assert(segs[k - 1] == segs.last());
            }
        }
    }
}

/// Where some segment starts at or before `offset`, the segment that
/// `segment_for` names does, and none behind it.
pub proof fn lemma_segment_for(segs: Seq<Segment>, offset: u64)
    requires
        segs.len() > 0,
        segs[0].start() <= offset,
    ensures
        0 <= segment_for(segs, offset) < segs.len(),
        segs[segment_for(segs, offset)].start() <= offset,
        forall|j: int|
            segment_for(segs, offset) < j < segs.len() ==> (#[trigger] segs[j]).start() > offset,
    decreases segs.len(),
{
    if segs.last().start() <= offset {
    } else {
        let rest = segs.drop_last();
        assert(rest.len() > 0);
        assert(rest[0] == segs[0]);
        lemma_segment_for(rest, offset);
        assert forall|j: int| segment_for(segs, offset) < j < segs.len() implies (
        #[trigger] segs[j]).start() > offset by {
            if j < rest.len() {
                assert(rest[j] == segs[j]);
            }
        }
    }
}

/// The segments that a read from `start` to `end`, both within the log,
/// has to look at are a run that starts at or before `start` and ends
/// behind `end`; the latter unless the log is empty.
pub proof fn lemma_filtered_segments(
    segs: Seq<Segment>,
    log: Seq<MessageView>,
    start: u64,
    end: u64,
    filtered: Seq<&Segment>,
)
    requires
        segments_hold(segs, log),
        segs.len() > 0,
        start <= end,
        end < log.len() || (log.len() == 0 && end == 0),
        filtered.len() == segments_upto(segs, end) - clip(
            segment_for(segs, start),
            0,
            segments_upto(segs, end),
        ),
        forall|i: int|
            0 <= i < filtered.len() ==> *(#[trigger] filtered[i]) == segs[segment_for(segs, start)
                + i],
    ensures
        filtered.len() > 0,
        segment_run(filtered, log),
        filtered[0].start() <= start,
        end < filtered.last().next_offset() || log.len() == 0,
        filtered.last().next_offset() <= log.len(),
{
    let first = segment_for(segs, start);
    let upto = segments_upto(segs, end);
    lemma_segment_for(segs, start);
    lemma_segments_upto(segs, end, first);
    lemma_segments_upto(segs, end, upto);
    assert(first < upto);
    assert(*filtered.last() == segs[upto - 1]);
    assert(*filtered[0] == segs[first]);
    assert forall|i: int| 0 <= i < filtered.len() implies holds_stretch(
        *#[trigger] filtered[i],
        log,
    ) by {
        assert(segs[first + i].wf());
    }
    assert forall|i: int, j: int| 0 <= i && j == i + 1 && j < filtered.len() implies (
    #[trigger] filtered[i]).next_offset() == (#[trigger] filtered[j]).start() by {
        assert(segs[first + i].next_offset() == segs[first + j].start());
    }
    if upto < segs.len() {
        assert(segs[upto - 1].next_offset() == segs[upto].start());
    }
}

/// Each segment of a run lies within the run.
pub proof fn lemma_segment_run_bounds(segments: Seq<&Segment>, log: Seq<MessageView>, i: int)
    requires
        segment_run(segments, log),
        0 <= i < segments.len(),
    ensures
        segments[0].start() <= segments[i].start() <= segments[i].next_offset()
            <= segments.last().next_offset() <= log.len(),
    decreases segments.len() - i, i,
{
    assert(holds_stretch(*segments[i], log));
    assert(holds_stretch(*segments[0], log));
    assert(holds_stretch(*segments.last(), log));
    if i > 0 {
        lemma_segment_run_low(segments, log, i);
    }
    if i + 1 < segments.len() {
        lemma_segment_run_high(segments, log, i);
    }
}

/// No segment of a run starts before the first.
proof fn lemma_segment_run_low(segments: Seq<&Segment>, log: Seq<MessageView>, i: int)
    requires
        segment_run(segments, log),
        0 <= i < segments.len(),
    ensures
        segments[0].start() <= segments[i].start(),
    decreases i,
{
    if i > 0 {
        lemma_segment_run_low(segments, log, i - 1);
        assert(holds_stretch(*segments[i - 1], log));
        assert(segments[i - 1].next_offset() == segments[i].start());
    }
}

/// No segment of a run ends behind the last.
proof fn lemma_segment_run_high(segments: Seq<&Segment>, log: Seq<MessageView>, i: int)
    requires
        segment_run(segments, log),
        0 <= i < segments.len(),
    ensures
        segments[i].next_offset() <= segments.last().next_offset(),
    decreases segments.len() - i,
{
    if i + 1 < segments.len() {
        lemma_segment_run_high(segments, log, i + 1);
        assert(holds_stretch(*segments[i + 1], log));
        assert(segments[i].next_offset() == segments[i + 1].start());
    }
}

} // verus!
