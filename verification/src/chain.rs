//! Runs of consecutive batches, and reading a range of offsets out of one.

use crate::batch::{
    decode_records, lemma_decode_records_step, total_size, BatchView, RetainedMessageBatch,
};
use crate::iterator::RetainedMessageBatchIterator;
use crate::message::{message_views, MessageView, RetainedMessage};
use std::sync::Arc;
use vstd::prelude::*;

verus! {

/// What the batches of `v` hold, in their order.
pub open spec fn batch_views(v: Seq<Arc<RetainedMessageBatch>>) -> Seq<BatchView> {
    v.map_values(|b: Arc<RetainedMessageBatch>| b@)
}

/// `log` is a stretch of a partition's messages that starts at the offset
/// `first`: offsets run on without a gap, and timestamps never go back.
pub open spec fn log_wf(log: Seq<MessageView>, first: int) -> bool {
    &&& 0 <= first
    &&& first + log.len() <= u64::MAX + 1
    &&& forall|i: int| 0 <= i < log.len() ==> (#[trigger] log[i]).offset == first + i
    &&& forall|i: int, j: int|
        0 <= i <= j < log.len() ==> (#[trigger] log[i]).timestamp <= (#[trigger] log[j]).timestamp
}

/// The batch `b` holds the messages that `log`, which starts at the offset
/// `first`, has at the offsets of `b`.
pub open spec fn stores(b: BatchView, log: Seq<MessageView>, first: int) -> bool {
    &&& first <= b.base_offset
    &&& b.last_offset() - first < log.len()
    &&& b.holds(log.subrange(b.base_offset - first, b.last_offset() - first + 1))
}

/// The batches `bs` are a run out of `log`: each holds its stretch of `log`,
/// and each starts where the one before it ends.
pub open spec fn chained(bs: Seq<BatchView>, log: Seq<MessageView>, first: int) -> bool {
    &&& forall|k: int| 0 <= k < bs.len() ==> stores(#[trigger] bs[k], log, first)
    &&& forall|i: int, j: int|
        0 <= i < j < bs.len() ==> (#[trigger] bs[i]).last_offset() < (#[trigger] bs[j]).base_offset
    &&& forall|i: int, j: int|
        0 <= i && j == i + 1 && j < bs.len() ==> (#[trigger] bs[i]).last_offset() + 1 == (
        #[trigger] bs[j]).base_offset
}

/// The batches `bs` hold all of `log` and nothing else: the first starts at
/// `first`, the last ends with `log`.
pub open spec fn covers(bs: Seq<BatchView>, log: Seq<MessageView>, first: int) -> bool {
    if bs.len() == 0 {
        log.len() == 0
    } else {
        bs[0].base_offset == first && bs.last().last_offset() + 1 == first + log.len()
    }
}

/// The offset behind the last message of the run `bs`; `first` for no batch.
pub open spec fn run_end(bs: Seq<BatchView>, first: int) -> int {
    if bs.len() == 0 {
        first
    } else {
        bs.last().last_offset() + 1
    }
}

/// The offset at which the run `bs` starts; `first` for no batch.
pub open spec fn run_start(bs: Seq<BatchView>, first: int) -> int {
    if bs.len() == 0 {
        first
    } else {
        bs[0].base_offset as int
    }
}

/// The messages `ms` may follow `log`: their timestamps never go back, and
/// do not go back behind the last of `log`.
pub open spec fn follows(ms: Seq<MessageView>, log: Seq<MessageView>) -> bool {
    &&& forall|i: int, j: int|
        0 <= i <= j < ms.len() ==> (#[trigger] ms[i]).timestamp <= (#[trigger] ms[j]).timestamp
    &&& log.len() > 0 && ms.len() > 0 ==> log.last().timestamp <= ms[0].timestamp
}

/// A batch that holds `ms` and starts where `log` ends extends a run that
/// ends with `log` to a run that ends with `log + ms`.
pub proof fn lemma_chain_push(
    bs: Seq<BatchView>,
    log: Seq<MessageView>,
    first: int,
    b: BatchView,
    ms: Seq<MessageView>,
)
    requires
        log_wf(log, first),
        chained(bs, log, first),
        bs.len() > 0 ==> bs.last().last_offset() + 1 == first + log.len(),
        b.holds(ms),
        b.base_offset == first + log.len(),
        follows(ms, log),
    ensures
        log_wf(log + ms, first),
        chained(bs.push(b), log + ms, first),
        covers(bs, log, first) ==> covers(bs.push(b), log + ms, first),
        bs.push(b).last().last_offset() + 1 == first + (log + ms).len(),
        total_size(bs.push(b)) == total_size(bs) + b.size_bytes(),
{
    let log2 = log + ms;
    let bs2 = bs.push(b);
    assert forall|i: int, j: int| 0 <= i <= j < log2.len() implies (#[trigger] log2[i]).timestamp
        <= (#[trigger] log2[j]).timestamp by {
        if i < log.len() && j >= log.len() {
            assert(log[i].timestamp <= log.last().timestamp);
            assert(ms[0].timestamp <= ms[j - log.len()].timestamp);
        } else if i >= log.len() {
            assert(ms[i - log.len()].timestamp <= ms[j - log.len()].timestamp);
        }
    }
    assert forall|i: int| 0 <= i < log2.len() implies (#[trigger] log2[i]).offset == first + i by {
        if i >= log.len() {
            assert(ms[i - log.len()].offset == b.base_offset + (i - log.len()));
        }
    }
    assert forall|k: int| 0 <= k < bs2.len() implies stores(#[trigger] bs2[k], log2, first) by {
        if k < bs.len() {
            assert(stores(bs[k], log, first));
            assert(log2.subrange(bs[k].base_offset - first, bs[k].last_offset() - first + 1)
                =~= log.subrange(bs[k].base_offset - first, bs[k].last_offset() - first + 1));
        } else {
            assert(log2.subrange(b.base_offset - first, b.last_offset() - first + 1) =~= ms);
        }
    }
    assert forall|i: int, j: int| 0 <= i < j < bs2.len() implies (#[trigger] bs2[i]).last_offset()
        < (#[trigger] bs2[j]).base_offset by {
        if j == bs.len() {
            assert(stores(bs[i], log, first));
        }
    }
    assert forall|i: int, j: int| 0 <= i && j == i + 1 && j < bs2.len() implies (
    #[trigger] bs2[i]).last_offset() + 1 == (#[trigger] bs2[j]).base_offset by {
        if j == bs.len() {
            assert(bs[i] == bs.last());
        }
    }
    assert(bs2.drop_last() =~= bs);
}

/// A stretch of a run is a run.
pub proof fn lemma_chain_subrange(
    bs: Seq<BatchView>,
    log: Seq<MessageView>,
    first: int,
    from: int,
    to: int,
)
    requires
        chained(bs, log, first),
        0 <= from <= to <= bs.len(),
    ensures
        chained(bs.subrange(from, to), log, first),
{
    let sub = bs.subrange(from, to);
    assert forall|k: int| 0 <= k < sub.len() implies stores(#[trigger] sub[k], log, first) by {
        assert(stores(bs[from + k], log, first));
    }
    assert forall|i: int, j: int| 0 <= i < j < sub.len() implies (#[trigger] sub[i]).last_offset()
        < (#[trigger] sub[j]).base_offset by {
        assert(bs[from + i].last_offset() < bs[from + j].base_offset);
    }
    assert forall|i: int, j: int| 0 <= i && j == i + 1 && j < sub.len() implies (
    #[trigger] sub[i]).last_offset() + 1 == (#[trigger] sub[j]).base_offset by {
        assert(bs[from + i].last_offset() + 1 == bs[from + j].base_offset);
    }
}

/// Adds to `out` the messages of `batch` with offsets within
/// `start_offset..=end_offset`, where `batch` holds the messages `ms`.
pub(crate) fn append_messages_in_range(
    batch: &Arc<RetainedMessageBatch>,
    start_offset: u64,
    end_offset: u64,
    out: &mut Vec<RetainedMessage>,
    Ghost(ms): Ghost<Seq<MessageView>>,
)
    requires
        batch@.holds(ms),
    ensures
        message_views(final(out)@) == message_views(old(out)@) + ms.subrange(
            range_low(batch@, start_offset, end_offset),
            range_high(batch@, start_offset, end_offset),
        ),
{
    let mut iterator = RetainedMessageBatchIterator::new(batch.clone());
    let ghost before = message_views(out@);
    let ghost lo = range_low(batch@, start_offset, end_offset);
    let ghost hi = range_high(batch@, start_offset, end_offset);
    let ghost mut i: int = 0;
    assert(ms.subrange(0, ms.len() as int) =~= ms);
    assert(batch@.readable() =~= batch@.payload);
    assert(ms.subrange(lo, lo) =~= Seq::<MessageView>::empty());
    assert(before + Seq::<MessageView>::empty() =~= before);
    loop
        invariant
            batch@.holds(ms),
            iterator.batch() == batch@,
            0 <= i <= ms.len(),
            decode_records(iterator.remaining()) == Some(
                ms.subrange(i, ms.len() as int),
            ),
            lo == range_low(batch@, start_offset, end_offset),
            hi == range_high(batch@, start_offset, end_offset),
            message_views(out@) == before + ms.subrange(lo, clip(i, lo, hi)),
        ensures
            message_views(out@) == before + ms.subrange(lo, hi),
        decreases ms.len() - i,
    {
        proof {
            lemma_decode_records_step(iterator.remaining());
        }
        let ghost prev = message_views(out@);
        match iterator.next() {
            Some(message) => {
                assert(message@ == ms[i]);
                assert(ms.subrange(i, ms.len() as int).drop_first() =~= ms.subrange(
                    i + 1,
                    ms.len() as int,
                ));
                if message.offset >= start_offset && message.offset <= end_offset {
                    out.push(message);
                    assert(message_views(out@) =~= prev.push(ms[i]));
                    assert(ms.subrange(lo, clip(i + 1, lo, hi)) =~= ms.subrange(
                        lo,
                        clip(i, lo, hi),
                    ).push(ms[i]));
                    assert(message_views(out@) =~= before + ms.subrange(lo, clip(i + 1, lo, hi)));
                }
                proof {
                    i = i + 1;
                }
            },
            None => {
                break ;
            },
        }
    }
}

/// `x`, held within `lo..=hi`.
pub open spec fn clip(x: int, lo: int, hi: int) -> int {
    if x < lo {
        lo
    } else if x > hi {
        hi
    } else {
        x
    }
}

/// The index, within the batch `b`, of its first message with an offset of
/// `start_offset` or more.
pub open spec fn range_low(b: BatchView, start_offset: u64, end_offset: u64) -> int {
    clip(start_offset - b.base_offset, 0, b.last_offset_delta + 1)
}

/// The index, within the batch `b`, behind its last message with an offset of
/// `end_offset` or less; the low index where there is no such message.
pub open spec fn range_high(b: BatchView, start_offset: u64, end_offset: u64) -> int {
    clip(
        end_offset - b.base_offset + 1,
        range_low(b, start_offset, end_offset),
        b.last_offset_delta + 1,
    )
}

/// Reading the batch at `base..=last` moves the read of `start..=end`, held
/// within the run `run_lo..run_hi`, from the batch's start to its end.
pub proof fn lemma_scan_step(
    base: int,
    last: int,
    start: int,
    end: int,
    run_lo: int,
    run_hi: int,
) -> (r: (int, int))
    requires
        run_lo <= base <= last < run_hi,
    ensures
        ({
            let lo = clip(start, run_lo, run_hi);
            let hi = clip(end + 1, lo, run_hi);
            let a = clip(start - base, 0, last - base + 1);
            let z = clip(end - base + 1, a, last - base + 1);
            &&& r == (a, z)
            &&& clip(last + 1, lo, hi) == clip(base, lo, hi) + (z - a)
            &&& z > a ==> base + a == clip(base, lo, hi)
            &&& (base <= end && last >= start) || z == a
        }),
{
    let a = clip(start - base, 0, last - base + 1);
    let z = clip(end - base + 1, a, last - base + 1);
    (a, z)
}

/// What reading the batch at the place `k` of the run `bs` adds to a read
/// of `start..=end`: the batch holds its stretch of `log`, and the messages
/// of that stretch within the range are those of `log` from where the read
/// stands before the batch to where it stands behind it; a batch that does
/// not reach into the range leaves the read where it stands.
#[verifier::rlimit(30)]
pub proof fn lemma_scan(
    bs: Seq<BatchView>,
    log: Seq<MessageView>,
    first: int,
    k: int,
    start: u64,
    end: u64,
)
    requires
        chained(bs, log, first),
        0 <= k < bs.len(),
    ensures
        ({
            let lo = range_start(bs, first, start as int);
            let hi = range_end(bs, first, start as int, end as int);
            let b = bs[k];
            let cut = scan_cut(bs, first, k, lo, hi);
            let next = scan_cut(bs, first, k + 1, lo, hi);
            let ms = log.subrange(b.base_offset - first, b.last_offset() - first + 1);
            &&& b.holds(ms)
            &&& 0 <= lo <= cut <= next <= hi <= log.len()
            &&& if b.base_offset <= end && b.last_offset() >= start {
                log.subrange(lo, cut) + ms.subrange(
                    range_low(b, start, end),
                    range_high(b, start, end),
                ) == log.subrange(lo, next)
            } else {
                next == cut
            }
        }),
{
    let n = bs.len() as int;
    let lo = range_start(bs, first, start as int);
    let hi = range_end(bs, first, start as int, end as int);
    let b = bs[k];
    let cut = scan_cut(bs, first, k, lo, hi);
    let next = scan_cut(bs, first, k + 1, lo, hi);
    let ms = log.subrange(b.base_offset - first, b.last_offset() - first + 1);
    assert(stores(b, log, first));
    assert(stores(bs[0], log, first));
    assert(stores(bs[n - 1], log, first));
    if k + 1 < n {
        assert(bs[k].last_offset() + 1 == bs[k + 1].base_offset);
        assert(bs[k].last_offset() < bs[n - 1].base_offset);
    }
    if k > 0 {
        assert(bs[0].last_offset() < bs[k].base_offset);
    }
    lemma_scan_step(
        b.base_offset - first,
        b.last_offset() - first,
        start - first,
        end - first,
        run_start(bs, first) - first,
        run_end(bs, first) - first,
    );
    if b.base_offset <= end && b.last_offset() >= start {
        let a = range_low(b, start, end);
        let z = range_high(b, start, end);
        assert(ms.subrange(a, z) =~= log.subrange(cut, next));
        assert(log.subrange(lo, cut) + log.subrange(cut, next) =~= log.subrange(lo, next));
    }
}

/// A read that starts at a batch that starts at or before `start`, or at
/// the first batch, stands at its start before that batch.
pub proof fn lemma_scan_start(
    bs: Seq<BatchView>,
    log: Seq<MessageView>,
    first: int,
    from: int,
    start: u64,
    end: u64,
)
    requires
        chained(bs, log, first),
        0 <= from < bs.len(),
        from > 0 ==> bs[from].base_offset <= start,
    ensures
        ({
            let lo = range_start(bs, first, start as int);
            let hi = range_end(bs, first, start as int, end as int);
            &&& scan_cut(bs, first, from, lo, hi) == lo
            &&& 0 <= lo <= hi <= log.len()
        }),
{
    let n = bs.len() as int;
    assert(stores(bs[0], log, first));
    assert(stores(bs[n - 1], log, first));
    assert(stores(bs[from], log, first));
    if from > 0 {
        assert(bs[0].last_offset() < bs[from].base_offset);
    }
    if n > 1 {
        assert(bs[0].last_offset() < bs[n - 1].base_offset);
    }
}

/// The messages of the run `batches` with offsets within
/// `start_offset..=end_offset`, in their order. The batches before `from`
/// are not looked at: they end before `start_offset`.
pub(crate) fn load_messages_in_range(
    batches: &Vec<Arc<RetainedMessageBatch>>,
    from: usize,
    start_offset: u64,
    end_offset: u64,
    Ghost(log): Ghost<Seq<MessageView>>,
    Ghost(first): Ghost<int>,
) -> (out: Vec<RetainedMessage>)
    requires
        chained(batch_views(batches@), log, first),
        from <= batches.len(),
        0 < from < batches.len() ==> batches[from as int].base_offset <= start_offset,
        from == batches.len() ==> from == 0,
    ensures
        message_views(out@) == log.subrange(
            range_start(batch_views(batches@), first, start_offset as int),
            range_end(batch_views(batches@), first, start_offset as int, end_offset as int),
        ),
{
    let mut out: Vec<RetainedMessage> = Vec::new();
    let ghost bs = batch_views(batches@);
    let ghost lo = range_start(bs, first, start_offset as int);
    let ghost hi = range_end(bs, first, start_offset as int, end_offset as int);
    let n = batches.len();
    if n == 0 {
        assert(message_views(out@) =~= log.subrange(lo, hi));
        return out;
    }
    let mut k: usize = from;
    proof {
        lemma_scan_start(bs, log, first, from as int, start_offset, end_offset);
        assert(message_views(out@) =~= log.subrange(lo, lo));
    }
    while k < n
        invariant
            n == batches.len(),
            from <= k <= n,
            bs == batch_views(batches@),
            chained(bs, log, first),
            lo == range_start(bs, first, start_offset as int),
            hi == range_end(bs, first, start_offset as int, end_offset as int),
            message_views(out@) == log.subrange(lo, scan_cut(bs, first, k as int, lo, hi)),
        decreases n - k,
    {
        let batch = &batches[k];
        let ghost b = bs[k as int];
        let ghost ms = log.subrange(b.base_offset - first, b.last_offset() - first + 1);
        proof {
            assert(b == batch@);
            lemma_scan(bs, log, first, k as int, start_offset, end_offset);
        }
        if batch.is_contained_or_overlapping_within_offset_range(start_offset, end_offset) {
            append_messages_in_range(batch, start_offset, end_offset, &mut out, Ghost(ms));
        }
        k = k + 1;
    }
    out
}

/// Where the read of the run `bs` stands before its batch `k`: the offset,
/// counted from `first`, at which that batch starts, held within `lo..=hi`.
pub open spec fn scan_cut(bs: Seq<BatchView>, first: int, k: int, lo: int, hi: int) -> int {
    clip(
        if k < bs.len() {
            bs[k].base_offset - first
        } else {
            run_end(bs, first) - first
        },
        lo,
        hi,
    )
}

/// The index in a log that starts at the offset `first` of the first message
/// that a read from `start` gets out of the run `bs`.
pub open spec fn range_start(bs: Seq<BatchView>, first: int, start: int) -> int {
    clip(start - first, run_start(bs, first) - first, run_end(bs, first) - first)
}

/// The index in a log that starts at the offset `first` behind the last
/// message that a read of `start..=end` gets out of the run `bs`.
pub open spec fn range_end(bs: Seq<BatchView>, first: int, start: int, end: int) -> int {
    clip(end + 1 - first, range_start(bs, first, start), run_end(bs, first) - first)
}

} // verus!
