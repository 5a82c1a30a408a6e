//! What holds of every sound partition and of every read from it.

use crate::batch::{fit_count, lemma_total_size_add, total_size, BatchView};
use crate::chain::{clip, log_wf, stores};
use crate::message::MessageView;
use crate::partition::messages::{
    at_or_after, last_of, lemma_at_or_after_sorted, newest_by_size, slice_from,
};
use crate::partition::{Partition, PollingConsumer};
use crate::segment::Segment;
use crate::system::{polled, PollingKind, PollingStrategy};
use vstd::prelude::*;

verus! {

/// Offsets rise strictly along `ms`, and timestamps never go back.
pub open spec fn ordered(ms: Seq<MessageView>) -> bool {
    forall|i: int, j: int|
        0 <= i < j < ms.len() ==> (#[trigger] ms[i]).offset < (#[trigger] ms[j]).offset
            && ms[i].timestamp <= ms[j].timestamp
}

/// The offsets of `ms` run on from `start` without a gap.
pub open spec fn runs_from(ms: Seq<MessageView>, start: int) -> bool {
    forall|i: int| 0 <= i < ms.len() ==> (#[trigger] ms[i]).offset == start + i
}

/// The batch at the place `k` of the segment at the place `s` of
/// `partition` holds a message with the offset `offset`, and it is the
/// message of the partition at that place.
pub open spec fn stored_at(partition: Partition, s: int, k: int, offset: int) -> bool {
    let b = partition.segments()[s].batches()[k];
    &&& 0 <= s < partition.segments().len()
    &&& 0 <= k < partition.segments()[s].batches().len()
    &&& b.base_offset <= offset <= b.last_offset()
    &&& b.messages()[offset - b.base_offset] == partition.messages()[offset]
}

/// The offset `offset` is in storage: some batch of some segment of
/// `partition` holds the message with that offset.
pub open spec fn in_storage(partition: Partition, offset: int) -> bool {
    exists|s: int, k: int| #[trigger] stored_at(partition, s, k, offset)
}

/// A read by offset gets messages whose offsets run on from the offset
/// asked for without a gap, rising strictly; it gets none where the offset
/// asked for lies behind the newest message, and never more than asked for.
pub proof fn lemma_read_by_offset(partition: Partition, start_offset: u64, count: u32)
    requires
        partition.wf(),
    ensures
        runs_from(
            slice_from(partition.messages(), start_offset as int, count as int),
            start_offset as int,
        ),
        ordered(slice_from(partition.messages(), start_offset as int, count as int)),
        slice_from(partition.messages(), start_offset as int, count as int).len() <= count,
        partition.messages().len() == 0 || start_offset > partition.current() ==> slice_from(
            partition.messages(),
            start_offset as int,
            count as int,
        ).len() == 0,
        start_offset + count <= partition.messages().len() ==> slice_from(
            partition.messages(),
            start_offset as int,
            count as int,
        ).len() == count,
{
    partition.lemma_wf();
    lemma_subrange_ordered(
        partition.messages(),
        clip(start_offset as int, 0, partition.messages().len() as int),
        clip(
            start_offset + count,
            clip(start_offset as int, 0, partition.messages().len() as int),
            partition.messages().len() as int,
        ),
    );
}

/// A stretch of a log is ordered, and its offsets run on from the offset of
/// its first message.
pub proof fn lemma_subrange_ordered(log: Seq<MessageView>, from: int, to: int)
    requires
        log_wf(log, 0),
        0 <= from <= to <= log.len(),
    ensures
        ordered(log.subrange(from, to)),
        runs_from(log.subrange(from, to), from),
{
    let sub = log.subrange(from, to);
    assert forall|i: int, j: int| 0 <= i < j < sub.len() implies (#[trigger] sub[i]).offset < (
    #[trigger] sub[j]).offset && sub[i].timestamp <= sub[j].timestamp by {
        assert(sub[i] == log[from + i]);
        assert(sub[j] == log[from + j]);
    }
    assert forall|i: int| 0 <= i < sub.len() implies (#[trigger] sub[i]).offset == from + i by {
        assert(sub[i] == log[from + i]);
    }
}

/// A read by timestamp gets only messages with a timestamp of the one asked
/// for or more, and no more messages than asked for.
pub proof fn lemma_read_by_timestamp(partition: Partition, timestamp: u64, count: u32)
    requires
        partition.wf(),
    ensures
        forall|i: int|
            0 <= i < at_or_after(
                partition.fetched_by_timestamp(timestamp, count),
                timestamp,
                count as int,
            ).len() ==> (#[trigger] at_or_after(
                partition.fetched_by_timestamp(timestamp, count),
                timestamp,
                count as int,
            )[i]).timestamp >= timestamp,
        at_or_after(partition.fetched_by_timestamp(timestamp, count), timestamp, count as int).len()
            <= count,
{
    let fetched = partition.fetched_by_timestamp(timestamp, count);
    let pred = |m: MessageView| m.timestamp >= timestamp;
    let kept = fetched.filter(pred);
    let out = at_or_after(fetched, timestamp, count as int);
    assert forall|i: int| 0 <= i < out.len() implies (#[trigger] out[i]).timestamp
        >= timestamp by {
        fetched.lemma_filter_pred(pred, i);
        assert(out[i] == kept[i]);
    }
}

/// The messages that a poll gets, whatever its strategy, come with strictly
/// rising offsets and with timestamps that never go back.
pub proof fn lemma_reads_are_ordered(
    partition: Partition,
    consumer: PollingConsumer,
    strategy: PollingStrategy,
    count: u32,
)
    requires
        partition.wf(),
    ensures
        ordered(polled(partition, consumer, strategy, count)),
{
    partition.lemma_wf();
    let log = partition.messages();
    match strategy.kind {
        PollingKind::Offset => {
            lemma_read_by_offset(partition, strategy.value, count);
        },
        PollingKind::First => {
            lemma_read_by_offset(partition, 0, count);
        },
        PollingKind::Last => {
            lemma_subrange_ordered(
                log,
                if count >= log.len() {
                    0
                } else {
                    log.len() - count
                },
                log.len() as int,
            );
        },
        PollingKind::Next => {
            let start: int = match partition.stored_offset(consumer) {
                Some(offset) => offset + 1,
                None => 0,
            };
            lemma_subrange_ordered(
                log,
                clip(start, 0, log.len() as int),
                clip(start + count, clip(start, 0, log.len() as int), log.len() as int),
            );
        },
        PollingKind::Timestamp => {
            lemma_timestamp_read_is_ordered(partition, strategy.value, count);
        },
    }
}

/// The messages that a read by timestamp gets come with strictly rising
/// offsets and with timestamps that never go back.
#[verifier::rlimit(30)]
pub proof fn lemma_timestamp_read_is_ordered(partition: Partition, timestamp: u64, count: u32)
    requires
        partition.wf(),
    ensures
        ordered(
            at_or_after(partition.fetched_by_timestamp(timestamp, count), timestamp, count as int),
        ),
{
    partition.lemma_wf();
    let log = partition.messages();
    lemma_fetched_is_stretch(partition, timestamp, count);
    let fetched = partition.fetched_by_timestamp(timestamp, count);
    let (from, to) = choose|from: int, to: int|
        0 <= from <= to <= log.len() && fetched == log.subrange(from, to);
    lemma_subrange_ordered(log, from, to);
    let first = first_at_or_after(fetched, timestamp, 0);
    lemma_first_at_or_after(fetched, timestamp, 0);
    lemma_at_or_after_sorted(fetched, timestamp, first);
    let out = at_or_after(fetched, timestamp, count as int);
    assert forall|i: int, j: int| 0 <= i < j < out.len() implies (#[trigger] out[i]).offset < (
    #[trigger] out[j]).offset && out[i].timestamp <= out[j].timestamp by {
        assert(out[i] == fetched[first + i]);
        assert(out[j] == fetched[first + j]);
    }
}

/// The place, from `from` on, of the first message of `ms` with a timestamp
/// of `timestamp` or more; the length of `ms` where there is none.
pub open spec fn first_at_or_after(ms: Seq<MessageView>, timestamp: u64, from: int) -> int
    decreases ms.len() - from,
{
    if from < 0 || from >= ms.len() {
        ms.len() as int
    } else if ms[from].timestamp >= timestamp {
        from
    } else {
        first_at_or_after(ms, timestamp, from + 1)
    }
}

/// What `first_at_or_after` finds: the messages from `from` up to the
/// place found are older than `timestamp`, and the one found is not.
pub proof fn lemma_first_at_or_after(ms: Seq<MessageView>, timestamp: u64, from: int)
    requires
        0 <= from <= ms.len(),
    ensures
        from <= first_at_or_after(ms, timestamp, from) <= ms.len(),
        forall|j: int|
            from <= j < first_at_or_after(ms, timestamp, from) ==> (#[trigger] ms[j]).timestamp
                < timestamp,
        first_at_or_after(ms, timestamp, from) < ms.len() ==> ms[first_at_or_after(
            ms,
            timestamp,
            from,
        )].timestamp >= timestamp,
    decreases ms.len() - from,
{
    if from < ms.len() && ms[from].timestamp < timestamp {
        lemma_first_at_or_after(ms, timestamp, from + 1);
    }
}

/// What a read by timestamp fetches is a stretch of the messages of the
/// partition.
pub proof fn lemma_fetched_is_stretch(partition: Partition, timestamp: u64, count: u32)
    requires
        partition.wf(),
    ensures
        exists|from: int, to: int|
            0 <= from <= to <= partition.messages().len() && partition.fetched_by_timestamp(
                timestamp,
                count,
            ) == partition.messages().subrange(from, to),
{
    let log = partition.messages();
    let fetched = partition.fetched_by_timestamp(timestamp, count);
    match partition.indexed_plan(timestamp, count) {
        Some((offset, fetch)) => {
            let from = clip(offset as int, 0, log.len() as int);
            let to = clip(offset + fetch, from, log.len() as int);
            assert(fetched == log.subrange(from, to));
        },
        None => {
            if partition.segments().len() > 0 && partition.segments()[0].time_index().len() > 0 {
                let fetch: int = if count + partition.segments()[0].time_index()[0].relative_offset
                    > u32::MAX {
                    u32::MAX as int
                } else {
                    count + partition.segments()[0].time_index()[0].relative_offset
                };
                let to = clip(fetch, 0, log.len() as int);
                assert(fetched == log.subrange(0, to));
            } else {
                assert(fetched =~= log.subrange(0, 0));
            }
        },
    }
}

/// A read of the last `count` messages of a partition that has a message
/// gets `count` messages, or all where the partition has fewer, and the
/// last of them is the newest message of the partition.
pub proof fn lemma_read_last(partition: Partition, count: u32)
    requires
        partition.wf(),
        partition.messages().len() > 0,
        count >= 1,
    ensures
        last_of(partition.messages(), count as int).len() == if count <= partition.current() + 1 {
            count as int
        } else {
            partition.current() + 1
        },
        last_of(partition.messages(), count as int).last().offset == partition.current(),
{
    partition.lemma_wf();
}

/// A segment that holds the offset `offset`, among segments that follow one
/// another from offset zero on, the one at the place `upto` ending behind
/// `offset`.
proof fn lemma_find_segment(segs: Seq<Segment>, upto: int, offset: int) -> (s: int)
    requires
        0 <= upto < segs.len(),
        segs[0].start() == 0,
        forall|i: int, j: int|
            0 <= i && j == i + 1 && j < segs.len() ==> (#[trigger] segs[i]).next_offset() == (
            #[trigger] segs[j]).start(),
        0 <= offset < segs[upto].next_offset(),
    ensures
        0 <= s <= upto,
        segs[s].start() <= offset < segs[s].next_offset(),
    decreases upto,
{
    if offset >= segs[upto].start() {
        upto
    } else {
        assert(segs[upto - 1].next_offset() == segs[upto].start());
        lemma_find_segment(segs, upto - 1, offset)
    }
}

/// A batch that holds the offset `offset`, among batches that follow one
/// another from the offset `first` on, the one at the place `upto` ending at
/// or behind `offset`.
proof fn lemma_find_batch(bs: Seq<BatchView>, first: int, upto: int, offset: int) -> (k: int)
    requires
        0 <= upto < bs.len(),
        bs[0].base_offset == first,
        forall|i: int, j: int|
            0 <= i && j == i + 1 && j < bs.len() ==> (#[trigger] bs[i]).last_offset() + 1 == (
            #[trigger] bs[j]).base_offset,
        first <= offset <= bs[upto].last_offset(),
    ensures
        0 <= k <= upto,
        bs[k].base_offset <= offset <= bs[k].last_offset(),
    decreases upto,
{
    if offset >= bs[upto].base_offset {
        upto
    } else {
        assert(bs[upto - 1].last_offset() + 1 == bs[upto].base_offset);
        lemma_find_batch(bs, first, upto - 1, offset)
    }
}

/// Every offset below the number of messages is in storage.
pub proof fn lemma_offset_in_storage(partition: Partition, offset: int)
    requires
        partition.wf(),
        0 <= offset < partition.messages().len(),
    ensures
        in_storage(partition, offset),
{
    partition.lemma_wf();
    let segs = partition.segments();
    let log = partition.messages();
    let s = lemma_find_segment(segs, segs.len() - 1, offset);
    let segment = segs[s];
    assert(segment.wf());
    segment.lemma_wf();
    let bs = segment.batches();
    let first = segment.start() as int;
    let k = lemma_find_batch(bs, first, bs.len() - 1, offset);
    let b = bs[k];
    assert(stores(b, segment.messages(), first));
    let ms = segment.messages().subrange(b.base_offset - first, b.last_offset() - first + 1);
    assert(b.messages() == ms);
    assert(ms[offset - b.base_offset] == segment.messages()[offset - first]);
    assert(segment.messages()[offset - first] == log[offset]);
    assert(stored_at(partition, s, k, offset));
}

/// The offsets of a partition with `n` messages are those from zero up to,
/// and without, `n`: the messages come in the order of their offsets, each
/// of these offsets is in storage, and no batch in storage holds a message
/// that is not a message of the partition at the place of its offset.
pub proof fn lemma_offsets_are_exact(partition: Partition)
    requires
        partition.wf(),
    ensures
        runs_from(partition.messages(), 0),
        forall|offset: int|
            0 <= offset < partition.messages().len() ==> #[trigger] in_storage(partition, offset),
        forall|s: int, k: int, j: int|
            0 <= s < partition.segments().len() && 0 <= k < partition.segments()[s].batches().len()
                && 0 <= j < partition.segments()[s].batches()[k].messages().len() ==> {
                &&& (#[trigger] partition.segments()[s].batches()[k].messages()[j]).offset
                    < partition.messages().len()
                &&& partition.segments()[s].batches()[k].messages()[j]
                    == partition.messages()[partition.segments()[s].batches()[k].base_offset + j]
            },
{
    partition.lemma_wf();
    let segs = partition.segments();
    let log = partition.messages();
    assert forall|offset: int| 0 <= offset < log.len() implies #[trigger] in_storage(
        partition,
        offset,
    ) by {
        lemma_offset_in_storage(partition, offset);
    }
    assert forall|s: int, k: int, j: int|
        0 <= s < segs.len() && 0 <= k < segs[s].batches().len() && 0 <= j
            < segs[s].batches()[k].messages().len() implies {
        &&& (#[trigger] segs[s].batches()[k].messages()[j]).offset < log.len()
        &&& segs[s].batches()[k].messages()[j] == log[segs[s].batches()[k].base_offset + j]
    } by {
        let segment = segs[s];
        assert(segment.wf());
        segment.lemma_wf();
        let first = segment.start() as int;
        let b = segment.batches()[k];
        assert(stores(b, segment.messages(), first));
        let ms = segment.messages().subrange(b.base_offset - first, b.last_offset() - first + 1);
        assert(ms[j] == segment.messages()[b.base_offset - first + j]);
        assert(segment.messages()[b.base_offset - first + j] == log[b.base_offset + j]);
    }
}

/// The last batches of `bs` that `fit_count` counts fit into `budget`
/// bytes.
pub proof fn lemma_fit_count(bs: Seq<BatchView>, budget: int)
    requires
        budget >= 0,
    ensures
        fit_count(bs, budget) <= bs.len(),
        total_size(bs.subrange(bs.len() - fit_count(bs, budget), bs.len() as int)) <= budget,
    decreases bs.len(),
{
    let n = bs.len() as int;
    if n == 0 || bs.last().size_bytes() > budget {
        assert(bs.subrange(n, n) =~= Seq::<BatchView>::empty());
    } else {
        let rest = bs.drop_last();
        let c = fit_count(rest, budget - bs.last().size_bytes()) as int;
        lemma_fit_count(rest, budget - bs.last().size_bytes());
        let tail = bs.subrange(n - (c + 1), n);
        assert(tail.drop_last() =~= rest.subrange(rest.len() - c, rest.len() as int));
        assert(tail.last() == bs.last());
    }
}

/// The batches that a read by size gets out of sound segments take no more
/// than `budget` bytes together.
pub proof fn lemma_newest_fit(segs: Seq<Segment>, budget: int)
    requires
        forall|i: int| 0 <= i < segs.len() ==> (#[trigger] segs[i]).wf(),
        budget >= 0,
    ensures
        total_size(newest_by_size(segs, budget)) <= budget,
    decreases segs.len(),
{
    if segs.len() > 0 {
        let segment = segs.last();
        assert(segment.wf());
        segment.lemma_wf();
        if segment.size() == 0 {
        } else if segment.size() > budget {
            lemma_fit_count(segment.batches(), budget);
        } else if budget - segment.size() == 0 {
        } else {
            let rest = segs.drop_last();
            assert forall|i: int| 0 <= i < rest.len() implies (#[trigger] rest[i]).wf() by {
                assert(rest[i] == segs[i]);
            }
            lemma_newest_fit(rest, budget - segment.size());
            lemma_total_size_add(
                newest_by_size(rest, budget - segment.size()),
                segment.batches(),
            );
        }
    }
}

/// Each of the batches `bs` starts where the one before it ends.
pub open spec fn adjacent(bs: Seq<BatchView>) -> bool {
    forall|i: int, j: int|
        0 <= i && j == i + 1 && j < bs.len() ==> (#[trigger] bs[i]).last_offset() + 1 == (
        #[trigger] bs[j]).base_offset
}

/// The batches that a read by size gets out of sound segments that follow
/// one another follow one another, and the last of them is the last batch of
/// the last segment.
pub proof fn lemma_newest_adjacent(segs: Seq<Segment>, budget: int)
    requires
        forall|i: int| 0 <= i < segs.len() ==> (#[trigger] segs[i]).wf(),
        forall|i: int, j: int|
            0 <= i && j == i + 1 && j < segs.len() ==> (#[trigger] segs[i]).next_offset() == (
            #[trigger] segs[j]).start(),
        budget >= 0,
    ensures
        adjacent(newest_by_size(segs, budget)),
        newest_by_size(segs, budget).len() > 0 ==> segs.last().batches().len() > 0
            && newest_by_size(segs, budget).last() == segs.last().batches().last(),
    decreases segs.len(),
{
    if segs.len() > 0 {
        let segment = segs.last();
        assert(segment.wf());
        segment.lemma_wf();
        let bs = segment.batches();
        let first = segment.start() as int;
        if segment.size() == 0 {
        } else if segment.size() > budget {
            lemma_fit_count(bs, budget);
            let c = fit_count(bs, budget) as int;
            let tail = bs.subrange(bs.len() - c, bs.len() as int);
            assert forall|i: int, j: int| 0 <= i && j == i + 1 && j < tail.len() implies (
            #[trigger] tail[i]).last_offset() + 1 == (#[trigger] tail[j]).base_offset by {
                assert(bs[bs.len() - c + i].last_offset() + 1 == bs[bs.len() - c + j].base_offset);
            }
        } else {
            assert(bs.len() > 0);
            if budget - segment.size() == 0 {
            } else {
                let rest = segs.drop_last();
                assert forall|i: int| 0 <= i < rest.len() implies (#[trigger] rest[i]).wf() by {
                    assert(rest[i] == segs[i]);
                }
                assert forall|i: int, j: int|
                    0 <= i && j == i + 1 && j < rest.len() implies (
                #[trigger] rest[i]).next_offset() == (#[trigger] rest[j]).start() by {
                    assert(segs[i].next_offset() == segs[j].start());
                }
                lemma_newest_adjacent(rest, budget - segment.size());
                let older = newest_by_size(rest, budget - segment.size());
                let all = older + bs;
                assert forall|i: int, j: int| 0 <= i && j == i + 1 && j < all.len() implies (
                #[trigger] all[i]).last_offset() + 1 == (#[trigger] all[j]).base_offset by {
                    if j < older.len() {
                        assert(older[i].last_offset() + 1 == older[j].base_offset);
                    } else if i >= older.len() {
                        assert(bs[i - older.len()].last_offset() + 1 == bs[j
                            - older.len()].base_offset);
                    } else {
                        let before = rest.last();
                        assert(before == segs[segs.len() - 2]);
                        before.lemma_wf();
                        assert(older[i] == before.batches().last());
                        assert(before.next_offset() == segment.start());
                        assert(all[j] == bs[0]);
                    }
                }
                assert(all.last() == bs.last());
            }
        }
    }
}

/// A read of the newest batches by size gets batches that take no more
/// bytes than asked for and that follow one another, and where it gets any,
/// the last of them ends with the newest message of the partition.
pub proof fn lemma_read_by_size(partition: Partition, size_bytes: u64)
    requires
        partition.wf(),
    ensures
        total_size(newest_by_size(partition.segments(), size_bytes as int)) <= size_bytes,
        adjacent(newest_by_size(partition.segments(), size_bytes as int)),
        newest_by_size(partition.segments(), size_bytes as int).len() > 0 ==> newest_by_size(
            partition.segments(),
            size_bytes as int,
        ).last().last_offset() == partition.current(),
{
    partition.lemma_wf();
    let segs = partition.segments();
    lemma_newest_fit(segs, size_bytes as int);
    lemma_newest_adjacent(segs, size_bytes as int);
    let newest = newest_by_size(segs, size_bytes as int);
    if newest.len() > 0 {
        let segment = segs.last();
        assert(segment.wf());
        segment.lemma_wf();
        let bs = segment.batches();
        if segment.size() > size_bytes {
            lemma_fit_count(bs, size_bytes as int);
        } else {
            assert(bs.len() > 0);
        }
        assert(newest.last() == bs.last());
    }
}

} // verus!
