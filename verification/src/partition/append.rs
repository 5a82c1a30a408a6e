//! Appending to a partition: which messages are taken, which offsets and
//! timestamps they get, and where their batch goes.

use super::{cache_holds, segments_chain, segments_hold, Partition, PollingConsumer};
use crate::batch::{
    all_valid, encode_records, lemma_decode_encode_records, lemma_decode_first_of_record,
    BatchView, RetainedMessageBatch,
};
use crate::buffer::{buf_freeze, buf_len, buf_seq, buf_with_capacity};
use crate::cache::{evictions, BatchCache};
use crate::chain::{follows, lemma_chain_push, lemma_chain_subrange, log_wf};
use crate::deduplicator::{window_after_all, MessageDeduplicator};
use crate::error::Error;
use crate::message::{
    encode_record, Message, MessageView, RetainedMessage, SentView, MESSAGE_METADATA_SIZE,
    RECORD_HEADER_SIZE,
};
use crate::segment::Segment;
use crate::utils::now_micros;
use bytes::BytesMut;
use std::sync::Arc;
use vstd::prelude::*;

verus! {

/// What the messages of `v` hold, in their order.
pub open spec fn sent_views(v: Seq<Message>) -> Seq<SentView> {
    v.map_values(|m: Message| m@)
}

/// The ids of the messages `msgs`, in their order.
pub open spec fn ids_of(msgs: Seq<SentView>) -> Seq<u128> {
    msgs.map_values(|m: SentView| m.id)
}

/// The bytes that the records of all of `msgs` take together.
pub open spec fn total_record_size(msgs: Seq<SentView>) -> int
    decreases msgs.len(),
{
    if msgs.len() == 0 {
        0
    } else {
        total_record_size(msgs.drop_last()) + msgs.last().record_size()
    }
}

/// The timestamp of a message that is appended behind `log` while the clock
/// reads `now`: `now`, or the timestamp of the last message of `log` where
/// the clock has fallen behind it.
pub open spec fn stamp(log: Seq<MessageView>, now: u64) -> u64 {
    if log.len() > 0 && log.last().timestamp > now {
        log.last().timestamp
    } else {
        now
    }
}

/// Whether a message with the id `id` that comes behind the messages
/// `earlier` is held to be a duplicate: the window, which was `window`
/// before `earlier` came, holds `id`. Without a window nothing is.
pub open spec fn is_duplicate(
    window: Option<Seq<u128>>,
    capacity: int,
    earlier: Seq<SentView>,
    id: u128,
) -> bool {
    match window {
        Some(window) => window_after_all(window, capacity, ids_of(earlier)).contains(id),
        None => false,
    }
}

/// The messages of a partition that held `log`, with the window against
/// duplicates `window` of the capacity `capacity`, after the messages `msgs`
/// were appended at the clock readings `clock`: each message that is no
/// duplicate is retained behind the ones before it, with the next offset.
pub open spec fn appended(
    log: Seq<MessageView>,
    window: Option<Seq<u128>>,
    capacity: int,
    msgs: Seq<SentView>,
    clock: Seq<u64>,
) -> Seq<MessageView>
    decreases msgs.len(),
{
    if msgs.len() == 0 {
        log
    } else {
        let before = appended(log, window, capacity, msgs.drop_last(), clock.drop_last());
        if is_duplicate(window, capacity, msgs.drop_last(), msgs.last().id) {
            before
        } else {
            before.push(msgs.last().retained(before.len() as u64, stamp(before, clock.last())))
        }
    }
}

/// The distance in time between two messages of the batch `ms`, as it
/// enters the smoothed distance: the time from the first to the last over
/// the number of messages, cut to 32 bits.
pub open spec fn batch_delta(ms: Seq<MessageView>) -> u32 {
    (((ms.last().timestamp - ms[0].timestamp) / (ms.len() as int)) % 0x1_0000_0000) as u32
}

/// The weight with which the distance `new` within a batch enters the
/// smoothed distance, which was `current`, as a fraction: one less the
/// difference of the two over `range`, but `min_percent` of a hundred at
/// least and `max_percent` at most.
pub open spec fn smoothing_weight(
    current: u32,
    new: u32,
    min_percent: u32,
    max_percent: u32,
    range: u32,
) -> (int, int) {
    let diff = if current >= new {
        current - new
    } else {
        new - current
    };
    if diff >= range || (range - diff) * 100 < min_percent * range {
        (min_percent as int, 100)
    } else if (range - diff) * 100 > max_percent * range {
        (max_percent as int, 100)
    } else {
        (range - diff, range as int)
    }
}

/// The distance in time between two messages after a batch with the
/// distance `new` was appended, where it was `current` before: the two
/// weighted by `smoothing_weight`, fractions dropped.
pub open spec fn smoothed_delta(
    current: u32,
    new: u32,
    min_percent: u32,
    max_percent: u32,
    range: u32,
) -> int {
    let (weight, whole) = smoothing_weight(current, new, min_percent, max_percent, range);
    let smoothed = (weight * new + (whole - weight) * current) / whole;
    if smoothed > u32::MAX {
        u32::MAX as int
    } else {
        smoothed
    }
}

/// The segment `after` is the segment `before` with the batches `added`
/// behind its own.
pub open spec fn grown_by(after: Segment, before: Segment, added: Seq<BatchView>) -> bool {
    &&& after.start() == before.start()
    &&& after.max_size() == before.max_size()
    &&& after.batches() == before.batches() + added
}

/// The segments `after` are the segments `before`, none of them missing,
/// after the batch `b`, which starts at the offset `next`, was placed: the
/// segments before the last are as they were; where `b` opened a new
/// segment, the last one is closed now and `b` alone stands in a segment
/// behind it, which starts at `next` and is full from `segment_size` bytes
/// on; else `b` stands behind the batches of the last one.
pub open spec fn placed(
    after: Seq<Segment>,
    before: Seq<Segment>,
    b: BatchView,
    next: int,
    segment_size: u32,
) -> bool {
    let n = before.len() as int;
    &&& forall|i: int| 0 <= i < n - 1 ==> #[trigger] after[i] == before[i]
    &&& if opens_segment(before.last(), b) {
        &&& after.len() == n + 1
        &&& grown_by(after[n - 1], before.last(), Seq::empty())
        &&& after[n - 1].closed()
        &&& after[n].start() == next
        &&& after[n].max_size() == if segment_size == 0 {
            1u32
        } else {
            segment_size
        }
        &&& after[n].batches() == seq![b]
    } else {
        &&& after.len() == n
        &&& grown_by(after[n - 1], before.last(), seq![b])
    }
}

/// The batch that holds the messages `news`, the first of them at the
/// offset `base`.
pub open spec fn batch_of(base: int, news: Seq<MessageView>) -> BatchView {
    BatchView {
        base_offset: base as u64,
        last_offset_delta: (news.len() - 1) as u32,
        max_timestamp: news.last().timestamp,
        length: encode_records(news).len() as u32,
        payload: encode_records(news),
    }
}

/// Whether the batch `b` opens a new segment behind the segment `active`:
/// `active` is closed, or its indexes do not reach the last offset of `b`.
pub open spec fn opens_segment(active: Segment, b: BatchView) -> bool {
    active.closed() || b.last_offset() - active.start() > u32::MAX
}

/// The number of messages appended since the active segment was last
/// written, after `count` more were appended to `unsaved`: none where that
/// reached `required` or the active segment is full, for then the segment
/// was written.
pub open spec fn unsaved_after(unsaved: u32, count: int, required: u32, active: Segment) -> u32 {
    let gathered = if unsaved + count > u32::MAX {
        u32::MAX
    } else {
        (unsaved + count) as u32
    };
    if gathered >= required || active.size() >= active.max_size() {
        0
    } else {
        gathered
    }
}

/// The ids in the window `deduplicator`, if there is one.
pub open spec fn window_of(deduplicator: Option<MessageDeduplicator>) -> Option<Seq<u128>> {
    match deduplicator {
        Some(deduplicator) => Some(deduplicator@),
        None => None,
    }
}

/// The capacity of the window `deduplicator`; zero where there is none.
pub open spec fn capacity_of(deduplicator: Option<MessageDeduplicator>) -> int {
    match deduplicator {
        Some(deduplicator) => deduplicator.cap(),
        None => 0,
    }
}

impl Partition {
    /// What an append of the messages `sent`, taken in at the clock readings
    /// `clock`, makes of the partition `before`, and what it answers.
    /// Without a segment the answer is that there is none, and nothing
    /// changes. Else the messages are those of `appended`, the window against
    /// duplicates has seen every id, and, where a message was taken, the
    /// smoothed distance in time has moved towards the distance within the
    /// new batch, the batch of the new messages is placed in the segments
    /// and entered into the cache, and the count of messages not yet
    /// written has gone up, or back to zero with the active segment written
    /// out.
    pub open spec fn follows_append(
        &self,
        before: Partition,
        sent: Seq<SentView>,
        clock: Seq<u64>,
        answer: Result<(), Error>,
    ) -> bool {
        let taken = appended(
            before.messages(),
            before.window(),
            before.window_capacity(),
            sent,
            clock,
        );
        let news = taken.subrange(before.messages().len() as int, taken.len() as int);
        &&& self.ids() == before.ids()
        &&& self.configuration() == before.configuration()
        &&& self.cache_budget() == before.cache_budget()
        &&& forall|consumer: PollingConsumer|
            self.stored_offset(consumer) == before.stored_offset(consumer)
        &&& self.window_capacity() == before.window_capacity()
        &&& if before.segments().len() == 0 {
            &&& answer == Err::<(), Error>(Error::SegmentNotFound)
            &&& self.messages() == before.messages()
            &&& self.segments() == before.segments()
            &&& self.window() == before.window()
            &&& self.cached() == before.cached()
            &&& self.avg_delta() == before.avg_delta()
            &&& self.unsaved_count() == before.unsaved_count()
        } else {
            &&& answer is Ok
            &&& self.messages() == taken
            &&& before.messages().len() <= taken.len()
            &&& self.window() == match before.window() {
                Some(window) => Some(
                    window_after_all(window, before.window_capacity(), ids_of(sent)),
                ),
                None => None,
            }
            &&& if news.len() == 0 {
                &&& self.segments() == before.segments()
                &&& self.cached() == before.cached()
                &&& self.avg_delta() == before.avg_delta()
                &&& self.unsaved_count() == before.unsaved_count()
            } else {
                &&& self.avg_delta() == smoothed_delta(
                    before.avg_delta(),
                    batch_delta(news),
                    30,
                    70,
                    10,
                )
                &&& placed(
                    self.segments(),
                    before.segments(),
                    batch_of(before.messages().len() as int, news),
                    before.messages().len() as int,
                    before.configuration().segment_size,
                )
                &&& self.unsaved_count() == unsaved_after(
                    before.unsaved_count(),
                    news.len() as int,
                    before.configuration().messages_required_to_save,
                    self.segments().last(),
                )
                &&& self.unsaved_count() == 0 ==> self.segments().last().unsaved() == 0
                &&& self.cached() == match before.cached() {
                    Some(cached) => Some(
                        cached.subrange(
                            evictions(
                                cached,
                                before.cache_budget(),
                                batch_of(before.messages().len() as int, news).size_bytes(),
                            ) as int,
                            cached.len() as int,
                        ).push(batch_of(before.messages().len() as int, news)),
                    ),
                    None => None,
                }
            }
        }
    }

    /// Whether `messages` may be appended: their records fit into one batch,
    /// and 64 bits hold the offsets that they would get.
    pub fn accepts(&self, messages: &Vec<Message>) -> (accepted: bool)
        requires
            self.wf(),
        ensures
            accepted == (total_record_size(sent_views(messages@)) <= u32::MAX
                && self.messages().len() + messages.len() <= u64::MAX),
    {
        fits_batch(messages) && messages.len() as u64 <= u64::MAX - self.messages_count
    }

    /// Appends `messages` as one batch, stamped with the clock as it reads
    /// while they are taken in. See `append_messages_at` for what becomes of
    /// the messages and of the readings.
    pub fn append_messages(&mut self, messages: &Vec<Message>) -> (appended: Result<(), Error>)
        requires
            old(self).wf(),
            total_record_size(sent_views(messages@)) <= u32::MAX,
            old(self).messages().len() + messages.len() <= u64::MAX,
        ensures
            final(self).wf(),
            exists|clock: Seq<u64>|
                clock.len() == messages.len() && #[trigger] final(self).follows_append(
                    *old(self),
                    sent_views(messages@),
                    clock,
                    appended,
                ),
    {
        let mut clock: Vec<u64> = Vec::new();
        let mut i: usize = 0;
        while i < messages.len()
            invariant
                i <= messages.len(),
                clock.len() == i,
            decreases messages.len() - i,
        {
            clock.push(now_micros());
            i = i + 1;
        }
        self.append_messages_at(messages, &clock)
    }

    /// Appends `messages` as one batch, where the clock read `clock[i]`
    /// when the message `i` was taken in. Without a segment nothing is
    /// appended. Messages whose id the window against duplicates holds are
    /// dropped without a word; the others get the next offsets and their
    /// readings as timestamps, or the timestamp of the message before them
    /// where the clock has fallen behind it. Where no message is left,
    /// nothing but the window changes.
    #[verifier::rlimit(30)]
    pub fn append_messages_at(&mut self, messages: &Vec<Message>, clock: &Vec<u64>) -> (appended:
        Result<(), Error>)
        requires
            old(self).wf(),
            clock.len() == messages.len(),
            total_record_size(sent_views(messages@)) <= u32::MAX,
            old(self).messages().len() + messages.len() <= u64::MAX,
        ensures
            final(self).wf(),
            final(self).follows_append(*old(self), sent_views(messages@), clock@, appended),
    {
        if self.segments.len() == 0 {
            return Err(Error::SegmentNotFound);
        }
        let ghost log = self.log@;
        let ghost sent = sent_views(messages@);
        let base_offset: u64 = if !self.should_increment_offset {
            0
        } else {
            self.current_offset + 1
        };
        let mut deduplicator: Option<MessageDeduplicator> = None;
        std::mem::swap(&mut deduplicator, &mut self.message_deduplicator);
        let ghost window = window_of(deduplicator);
        let ghost capacity = capacity_of(deduplicator);
        let (deduplicator, buffer, messages_count, min_timestamp, max_timestamp, Ghost(ms)) =
            encode_accepted(
            deduplicator,
            messages,
            clock,
            base_offset,
            self.max_timestamp,
            Ghost(log),
        );
        self.message_deduplicator = deduplicator;
        if messages_count == 0 {
            assert(log + ms =~= log);
            return Ok(());
        }
        let avg_timestamp_delta = (((max_timestamp - min_timestamp) / messages_count as u64)
            % 0x1_0000_0000) as u32;
        self.update_avg_timestamp_delta(avg_timestamp_delta, 30, 70, 10);
        let last_offset_delta = messages_count - 1;
        let length = buf_len(&buffer) as u32;
        let built = RetainedMessageBatch::builder().base_offset(base_offset).max_timestamp(
            max_timestamp,
        ).last_offset_delta(last_offset_delta).length(length).payload(buf_freeze(buffer)).build();
        let batch = match built {
            Ok(batch) => Arc::new(batch),
            Err(e) => {
                return Err(e);
            },
        };
        proof {
            lemma_decode_encode_records(ms);
            assert(batch@ == batch_of(log.len() as int, ms));
            assert((log + ms).subrange(log.len() as int, (log + ms).len() as int) =~= ms);
        }
        self.store_batch(batch, Ghost(ms));
        Ok(())
    }

    /// Moves the smoothed distance in time between two messages towards
    /// `avg_timestamp_delta`, the distance within the batch just appended.
    /// The weight of the new value is one less the difference of the two
    /// values over `dynamic_range`, held between the two given percentages.
    fn update_avg_timestamp_delta(
        &mut self,
        avg_timestamp_delta: u32,
        min_alpha_percent: u32,
        max_alpha_percent: u32,
        dynamic_range: u32,
    )
        requires
            min_alpha_percent <= max_alpha_percent <= 100,
            dynamic_range > 0,
        ensures
            final(self).avg_timestamp_delta == smoothed_delta(
                old(self).avg_timestamp_delta,
                avg_timestamp_delta,
                min_alpha_percent,
                max_alpha_percent,
                dynamic_range,
            ),
            final(self).same_log(*old(self)),
            final(self).same_settings(*old(self)),
            final(self).unsaved_messages_count == old(self).unsaved_messages_count,
    {
        let current = self.avg_timestamp_delta as u128;
        let new = avg_timestamp_delta as u128;
        let diff: u128 = if current >= new {
            current - new
        } else {
            new - current
        };
        let range = dynamic_range as u128;
        let min_weight = min_alpha_percent as u128;
        let max_weight = max_alpha_percent as u128;
        assert(min_weight * range <= 100 * 0xffff_ffff) by (nonlinear_arith)
            requires
                min_weight <= 100,
                range <= 0xffff_ffff,
        ;
        assert(max_weight * range <= 100 * 0xffff_ffff) by (nonlinear_arith)
            requires
                max_weight <= 100,
                range <= 0xffff_ffff,
        ;
        let (weight, whole): (u128, u128) = if diff >= range || (range - diff) * 100 < min_weight
            * range {
            (min_weight, 100)
        } else if (range - diff) * 100 > max_weight * range {
            (max_weight, 100)
        } else {
            (range - diff, range)
        };
        assert(weight * new <= 0xffff_ffff * 0xffff_ffff) by (nonlinear_arith)
            requires
                weight <= 0xffff_ffff,
                new <= 0xffff_ffff,
        ;
        assert((whole - weight) * current <= 0xffff_ffff * 0xffff_ffff) by (nonlinear_arith)
            requires
                0 <= whole - weight <= 0xffff_ffff,
                current <= 0xffff_ffff,
        ;
        let smoothed: u128 = (weight * new + (whole - weight) * current) / whole;
        self.avg_timestamp_delta = if smoothed > u32::MAX as u128 {
            u32::MAX
        } else {
            smoothed as u32
        };
    }

    /// Takes `batch`, which holds the messages `ms`, into the partition: a
    /// new segment is opened for it where the active one cannot take it, the
    /// batch is staged in the active segment and entered into the cache, the
    /// counters move on, and the segment is written out where enough
    /// messages have gathered or it is full.
    fn store_batch(&mut self, batch: Arc<RetainedMessageBatch>, Ghost(ms): Ghost<Seq<MessageView>>)
        requires
            old(self).wf(),
            old(self).segments@.len() > 0,
            batch@.holds(ms),
            batch@.base_offset == old(self).log@.len(),
            follows(ms, old(self).log@),
            old(self).log@.len() + ms.len() <= u64::MAX,
        ensures
            final(self).wf(),
            final(self).log@ == old(self).log@ + ms,
            final(self).same_settings(*old(self)),
            final(self).avg_timestamp_delta == old(self).avg_timestamp_delta,
            placed(
                final(self).segments@,
                old(self).segments@,
                batch@,
                old(self).log@.len() as int,
                old(self).config.segment_size,
            ),
            final(self).unsaved_messages_count == unsaved_after(
                old(self).unsaved_messages_count,
                ms.len() as int,
                old(self).config.messages_required_to_save,
                final(self).segments@.last(),
            ),
            final(self).unsaved_messages_count == 0 ==> final(self).segments@.last().unsaved() == 0,
            match (old(self).cache, final(self).cache) {
                (Some(before), Some(after)) => after.capacity() == before.capacity() && after@
                    == before@.subrange(
                    evictions(before@, before.capacity(), batch@.size_bytes()) as int,
                    before@.len() as int,
                ).push(batch@),
                (None, None) => true,
                _ => false,
            },
    {
        let ghost log = self.log@;
        let last_offset: u64 = batch.base_offset + batch.last_offset_delta as u64;
        let count: u64 = batch.last_offset_delta as u64 + 1;
        let max_timestamp = batch.max_timestamp;
        proof {
            lemma_chain_push(Seq::<BatchView>::empty(), log, 0, batch@, ms);
        }
        self.unsaved_messages_count = place_batch(
            &mut self.segments,
            batch.clone(),
            self.config.segment_size,
            self.unsaved_messages_count,
            self.config.messages_required_to_save,
            Ghost(log),
            Ghost(ms),
        );
        let mut cache: Option<BatchCache> = None;
        std::mem::swap(&mut cache, &mut self.cache);
        self.cache = enter_into_cache(cache, batch, Ghost(log), Ghost(ms));
        self.current_offset = last_offset;
        self.should_increment_offset = true;
        self.messages_count = self.messages_count + count;
        self.max_timestamp = max_timestamp;
        self.log = Ghost(log + ms);
    }
}

/// Whether the records of all of `messages` fit together into one batch,
/// whose length 32 bits have to hold.
pub fn fits_batch(messages: &Vec<Message>) -> (fits: bool)
    ensures
        fits == (total_record_size(sent_views(messages@)) <= u32::MAX),
{
    let ghost sent = sent_views(messages@);
    let mut size: u64 = 0;
    let mut i: usize = 0;
    assert(sent.subrange(0, 0) =~= Seq::<SentView>::empty());
    while i < messages.len()
        invariant
            i <= messages.len(),
            sent == sent_views(messages@),
            size == total_record_size(sent.subrange(0, i as int)),
            size <= u32::MAX,
        decreases messages.len() - i,
    {
        proof {
            assert(sent.subrange(0, i + 1).drop_last() =~= sent.subrange(0, i as int));
            assert(sent.subrange(0, i + 1).last() == messages[i as int]@);
            lemma_total_record_size_prefix(sent, i + 1);
        }
        let record = messages[i].get_size_bytes();
        if record > u32::MAX - (4 + RECORD_HEADER_SIZE - MESSAGE_METADATA_SIZE) {
            return false;
        }
        size = size + record as u64 + (4 + RECORD_HEADER_SIZE - MESSAGE_METADATA_SIZE) as u64;
        if size > u32::MAX as u64 {
            return false;
        }
        i = i + 1;
    }
    assert(sent.subrange(0, i as int) =~= sent);
    true
}

/// The bytes that the records of all of `messages` take together, as far
/// as a buffer may be asked to make room at once.
fn records_capacity(messages: &Vec<Message>) -> (capacity: usize)
    requires
        total_record_size(sent_views(messages@)) <= u32::MAX,
    ensures
        capacity == if total_record_size(sent_views(messages@)) <= 0x7fff_ffff {
            total_record_size(sent_views(messages@))
        } else {
            0x7fff_ffff
        },
{
    let ghost sent = sent_views(messages@);
    let mut size: u64 = 0;
    let mut i: usize = 0;
    assert(sent.subrange(0, 0) =~= Seq::<SentView>::empty());
    while i < messages.len()
        invariant
            i <= messages.len(),
            sent == sent_views(messages@),
            total_record_size(sent) <= u32::MAX,
            size == total_record_size(sent.subrange(0, i as int)),
        decreases messages.len() - i,
    {
        proof {
            assert(sent.subrange(0, i + 1).drop_last() =~= sent.subrange(0, i as int));
            assert(sent.subrange(0, i + 1).last() == messages[i as int]@);
            lemma_total_record_size_prefix(sent, i as int);
            lemma_total_record_size_prefix(sent, i + 1);
        }
        size = size + messages[i].get_size_bytes() as u64 + (4 + RECORD_HEADER_SIZE
            - MESSAGE_METADATA_SIZE) as u64;
        i = i + 1;
    }
    assert(sent.subrange(0, i as int) =~= sent);
    if size <= 0x7fff_ffff {
        size as usize
    } else {
        0x7fff_ffff
    }
}

/// Goes through `messages`: each that the window `deduplicator` lets pass
/// is retained with the next offset from `base_offset` on and stamped with
/// its reading of `clock`, or with the timestamp before it where the clock
/// has fallen behind, and its record is added to a buffer. Gives the window,
/// the buffer, the number of messages retained, the first and the last of
/// their timestamps, and the messages.
fn encode_accepted(
    deduplicator: Option<MessageDeduplicator>,
    messages: &Vec<Message>,
    clock: &Vec<u64>,
    base_offset: u64,
    last_timestamp: u64,
    Ghost(log): Ghost<Seq<MessageView>>,
) -> (taken: (Option<MessageDeduplicator>, BytesMut, u32, u64, u64, Ghost<Seq<MessageView>>))
    requires
        log_wf(log, 0),
        base_offset == log.len(),
        log.len() > 0 ==> last_timestamp == log.last().timestamp,
        deduplicator matches Some(d) ==> d.wf(),
        clock.len() == messages.len(),
        total_record_size(sent_views(messages@)) <= u32::MAX,
        log.len() + messages.len() <= u64::MAX,
    ensures
        taken.0 matches Some(d) ==> d.wf(),
        capacity_of(taken.0) == capacity_of(deduplicator),
        window_of(taken.0) == match deduplicator {
            Some(d) => Some(window_after_all(d@, d.cap(), ids_of(sent_views(messages@)))),
            None => None,
        },
        log + taken.5@ == appended(
            log,
            window_of(deduplicator),
            capacity_of(deduplicator),
            sent_views(messages@),
            clock@,
        ),
        buf_seq(taken.1) == encode_records(taken.5@),
        buf_seq(taken.1).len() <= u32::MAX,
        taken.2 == taken.5@.len(),
        taken.5@.len() <= messages.len(),
        all_valid(taken.5@),
        follows(taken.5@, log),
        forall|k: int| 0 <= k < taken.5@.len() ==> (#[trigger] taken.5@[k]).offset == base_offset + k,
        taken.5@.len() > 0 ==> taken.3 == taken.5@[0].timestamp && taken.4
            == taken.5@.last().timestamp && taken.3 <= taken.4,
{
    let ghost sent = sent_views(messages@);
    let ghost window = window_of(deduplicator);
    let ghost capacity = capacity_of(deduplicator);
    let mut deduplicator = deduplicator;
    let mut buffer = buf_with_capacity(records_capacity(messages));
    let mut messages_count: u32 = 0;
    let mut min_timestamp: u64 = 0;
    let mut max_timestamp: u64 = last_timestamp;
    let ghost mut ms: Seq<MessageView> = Seq::empty();
    let n = messages.len();
    let mut i: usize = 0;
    proof {
        assert(sent.subrange(0, 0) =~= Seq::<SentView>::empty());
        assert(log + ms =~= log);
        assert(ids_of(sent.subrange(0, 0)) =~= Seq::<u128>::empty());
    }
    while i < n
        invariant
            n == messages.len(),
            n == clock.len(),
            i <= n,
            sent == sent_views(messages@),
            log_wf(log, 0),
            base_offset == log.len(),
            log.len() > 0 ==> last_timestamp == log.last().timestamp,
            log.len() + n <= u64::MAX,
            total_record_size(sent) <= u32::MAX,
            deduplicator matches Some(d) ==> d.wf(),
            capacity_of(deduplicator) == capacity,
            window_of(deduplicator) == match window {
                Some(w) => Some(window_after_all(w, capacity, ids_of(sent.subrange(0, i as int)))),
                None => None,
            },
            log + ms == appended(
                log,
                window,
                capacity,
                sent.subrange(0, i as int),
                clock@.subrange(0, i as int),
            ),
            buf_seq(buffer) == encode_records(ms),
            buf_seq(buffer).len() <= total_record_size(sent.subrange(0, i as int)),
            messages_count == ms.len(),
            ms.len() <= i,
            ms.len() <= buf_seq(buffer).len(),
            all_valid(ms),
            follows(ms, log),
            forall|k: int| 0 <= k < ms.len() ==> (#[trigger] ms[k]).offset == base_offset + k,
            ms.len() > 0 ==> min_timestamp == ms[0].timestamp && max_timestamp
                == ms.last().timestamp && min_timestamp <= max_timestamp,
            ms.len() == 0 ==> max_timestamp == last_timestamp,
        decreases n - i,
    {
        let message = &messages[i];
        proof {
            assert(sent[i as int] == message@);
            lemma_try(sent, clock@, i as int);
        }
        let accepted = match deduplicator {
            Some(mut window) => {
                let inserted = window.try_insert(message.id);
                deduplicator = Some(window);
                inserted
            },
            None => true,
        };
        if accepted {
            let now = clock[i];
            let timestamp = if (messages_count > 0 || base_offset > 0) && now < max_timestamp {
                max_timestamp
            } else {
                now
            };
            if messages_count == 0 {
                min_timestamp = timestamp;
            }
            let message_offset = base_offset + messages_count as u64;
            let retained = RetainedMessage::new(message_offset, timestamp, message);
            proof {
                lemma_taken(log, ms, retained@, now);
            }
            retained.extend(&mut buffer);
            max_timestamp = timestamp;
            messages_count = messages_count + 1;
            proof {
                ms = ms.push(retained@);
            }
        }
        i = i + 1;
    }
    proof {
        assert(sent.subrange(0, n as int) =~= sent);
        assert(clock@.subrange(0, n as int) =~= clock@);
    }
    (deduplicator, buffer, messages_count, min_timestamp, max_timestamp, Ghost(ms))
}

/// Makes sure that the last of `segments` can take `batch`: where it is
/// closed, or its indexes do not reach the last offset of `batch`, it is
/// closed and a new segment is opened behind it.
fn open_segment_for(
    segments: &mut Vec<Segment>,
    batch: &RetainedMessageBatch,
    segment_size: u32,
    Ghost(log): Ghost<Seq<MessageView>>,
)
    requires
        segments_hold(old(segments)@, log),
        old(segments).len() > 0,
        batch.base_offset == log.len(),
        batch@.last_offset() <= u64::MAX,
    ensures
        segments_chain(final(segments)@, log),
        final(segments).len() == old(segments).len() + if opens_segment(
            old(segments)@.last(),
            batch@,
        ) {
            1int
        } else {
            0int
        },
        !final(segments)@.last().closed(),
        final(segments)@.last().size() < final(segments)@.last().max_size(),
        batch@.last_offset() - final(segments)@.last().start() <= u32::MAX,
        forall|i: int|
            0 <= i < old(segments).len() - 1 ==> #[trigger] final(segments)@[i] == old(
                segments,
            )@[i],
        grown_by(
            final(segments)@[old(segments).len() - 1],
            old(segments)@.last(),
            Seq::empty(),
        ),
        if opens_segment(old(segments)@.last(), batch@) {
            &&& final(segments)@[old(segments).len() - 1].closed()
            &&& final(segments)@.last().start() == log.len()
            &&& final(segments)@.last().batches().len() == 0
            &&& final(segments)@.last().max_size() == if segment_size == 0 {
                1u32
            } else {
                segment_size
            }
        } else {
            final(segments)@ == old(segments)@
        },
{
    let ghost segs = segments@;
    let ghost n = segs.len() as int;
    let mut last = match segments.pop() {
        Some(segment) => segment,
        None => {
            return ;
        },
    };
    proof {
        assert(segs.last().batches() + Seq::<BatchView>::empty() =~= segs.last().batches());
    }
    proof {
        assert(last == segs[n - 1]);
        assert(last.wf());
        assert(segments@ =~= segs.drop_last());
    }
    let reaches = !last.is_closed() && last.can_index(batch);
    if reaches {
        segments.push(last);
        assert(segments@ =~= segs);
        return ;
    }
    if !last.is_closed() {
        last.close();
    }
    proof {
        lemma_segments_grow(segs, log, Seq::<MessageView>::empty(), last);
        assert(log + Seq::<MessageView>::empty() =~= log);
        assert(last.messages() + Seq::<MessageView>::empty() =~= last.messages());
    }
    let fresh = Segment::create(batch.base_offset, segment_size);
    proof {
        lemma_segments_open(segs.drop_last().push(last), log, fresh);
    }
    segments.push(last);
    segments.push(fresh);
}

/// Stages `batch`, which holds the messages `ms`, in the last of
/// `segments`, and writes that segment out where, with the `unsaved`
/// messages that were appended before, `required` messages have gathered or
/// the segment is full. Gives the number of messages appended since the
/// segment was last written.
fn append_to_active(
    segments: &mut Vec<Segment>,
    batch: Arc<RetainedMessageBatch>,
    unsaved: u32,
    required: u32,
    Ghost(log): Ghost<Seq<MessageView>>,
    Ghost(ms): Ghost<Seq<MessageView>>,
) -> (gathered: u32)
    requires
        segments_chain(old(segments)@, log),
        old(segments).len() > 0,
        !old(segments)@.last().closed(),
        old(segments)@.last().size() < old(segments)@.last().max_size(),
        batch@.last_offset() - old(segments)@.last().start() <= u32::MAX,
        batch@.holds(ms),
        batch@.base_offset == log.len(),
        follows(ms, log),
    ensures
        segments_hold(final(segments)@, log + ms),
        final(segments).len() == old(segments).len(),
        gathered == unsaved_after(unsaved, ms.len() as int, required, final(segments)@.last()),
        gathered == 0 ==> final(segments)@.last().unsaved() == 0,
        final(segments)@.last().batches().len() > 0,
        final(segments)@.last().batches().last() == batch@,
        forall|i: int|
            0 <= i < old(segments).len() - 1 ==> #[trigger] final(segments)@[i] == old(
                segments,
            )@[i],
        grown_by(final(segments)@.last(), old(segments)@.last(), seq![batch@]),
{
    let ghost segs = segments@;
    let ghost n = segs.len() as int;
    let total: u64 = unsaved as u64 + batch.last_offset_delta as u64 + 1;
    let gathered: u32 = if total > u32::MAX as u64 {
        u32::MAX
    } else {
        total as u32
    };
    let mut last = match segments.pop() {
        Some(segment) => segment,
        None => {
            return 0;
        },
    };
    proof {
        assert(last == segs[n - 1]);
        assert(last.wf());
        assert(segments@ =~= segs.drop_last());
        assert(last.messages() == log.subrange(last.start() as int, last.next_offset()));
        if last.messages().len() > 0 {
            assert(last.messages().last() == log.last());
        }
    }
    let ghost staged = batch@;
    last.append_batch(batch);
    proof {
        assert(segs[n - 1].batches().push(staged) =~= segs[n - 1].batches() + seq![staged]);
    }
    let persists = gathered >= required || last.is_full();
    if persists {
        last.persist_messages();
    }
    proof {
        lemma_segments_grow(segs, log, ms, last);
    }
    segments.push(last);
    if persists {
        0
    } else {
        gathered
    }
}

/// Places `batch`, which holds the messages `ms`, in `segments`: a new
/// segment is opened for it where the last one cannot take it, and the
/// segment that takes it is written out where, with the `unsaved` messages
/// that were appended before, `required` messages have gathered or the
/// segment is full. Gives the number of messages appended since the segment
/// was last written.
fn place_batch(
    segments: &mut Vec<Segment>,
    batch: Arc<RetainedMessageBatch>,
    segment_size: u32,
    unsaved: u32,
    required: u32,
    Ghost(log): Ghost<Seq<MessageView>>,
    Ghost(ms): Ghost<Seq<MessageView>>,
) -> (gathered: u32)
    requires
        segments_hold(old(segments)@, log),
        old(segments).len() > 0,
        batch@.holds(ms),
        batch@.base_offset == log.len(),
        follows(ms, log),
    ensures
        segments_hold(final(segments)@, log + ms),
        placed(final(segments)@, old(segments)@, batch@, log.len() as int, segment_size),
        gathered == unsaved_after(unsaved, ms.len() as int, required, final(segments)@.last()),
        gathered == 0 ==> final(segments)@.last().unsaved() == 0,
{
    let ghost before = segments@;
    open_segment_for(segments, &batch, segment_size, Ghost(log));
    let ghost opened = segments@;
    let gathered = append_to_active(segments, batch, unsaved, required, Ghost(log), Ghost(ms));
    proof {
        let after = segments@;
        let n = before.len() as int;
        let b = batch@;
        assert forall|i: int| 0 <= i < n - 1 implies #[trigger] after[i] == before[i] by {
            assert(opened[i] == before[i]);
            assert(after[i] == opened[i]);
        }
        if opens_segment(before.last(), b) {
            assert(after[n - 1] == opened[n - 1]);
            assert(opened[n].batches() =~= Seq::<BatchView>::empty());
            assert(after[n].batches() =~= seq![b]);
        }
    }
    gathered
}

/// Enters `batch`, which holds the messages `ms`, into `cache`, if there is
/// a cache.
fn enter_into_cache(
    cache: Option<BatchCache>,
    batch: Arc<RetainedMessageBatch>,
    Ghost(log): Ghost<Seq<MessageView>>,
    Ghost(ms): Ghost<Seq<MessageView>>,
) -> (entered: Option<BatchCache>)
    requires
        cache_holds(cache, log),
        log_wf(log, 0),
        batch@.holds(ms),
        batch@.base_offset == log.len(),
        follows(ms, log),
    ensures
        cache_holds(entered, log + ms),
        entered is Some == cache is Some,
        entered matches Some(cache) ==> cache@.len() > 0 && cache@.last() == batch@,
        match (cache, entered) {
            (Some(before), Some(after)) => after.capacity() == before.capacity() && after@
                == before@.subrange(
                evictions(before@, before.capacity(), batch@.size_bytes()) as int,
                before@.len() as int,
            ).push(batch@),
            _ => true,
        },
{
    match cache {
        Some(mut cache) => {
            proof {
                let cached = cache@;
                let evicted = evictions(cached, cache.capacity(), batch@.size_bytes()) as int;
                lemma_evictions_bound(cached, cache.capacity(), batch@.size_bytes());
                lemma_chain_subrange(cached, log, 0, evicted, cached.len() as int);
                lemma_chain_push(cached.subrange(evicted, cached.len() as int), log, 0, batch@, ms);
            }
            cache.append(batch);
            Some(cache)
        },
        None => None,
    }
}

/// How the first `i + 1` of the messages `sent` and of the readings `clock`
/// come from the first `i`: by the message and the reading at the place
/// `i`; and the records of neither take more bytes than those of all.
pub proof fn lemma_try(sent: Seq<SentView>, clock: Seq<u64>, i: int)
    requires
        0 <= i < sent.len(),
        clock.len() == sent.len(),
    ensures
        sent.subrange(0, i + 1).drop_last() == sent.subrange(0, i),
        sent.subrange(0, i + 1).last() == sent[i],
        ids_of(sent.subrange(0, i + 1)).drop_last() == ids_of(sent.subrange(0, i)),
        ids_of(sent.subrange(0, i + 1)).last() == sent[i].id,
        clock.subrange(0, i + 1).drop_last() == clock.subrange(0, i),
        clock.subrange(0, i + 1).last() == clock[i],
        0 <= total_record_size(sent.subrange(0, i)),
        total_record_size(sent.subrange(0, i + 1)) == total_record_size(sent.subrange(0, i))
            + sent[i].record_size(),
        total_record_size(sent.subrange(0, i + 1)) <= total_record_size(sent),
{
    assert(sent.subrange(0, i + 1).drop_last() =~= sent.subrange(0, i));
    assert(ids_of(sent.subrange(0, i + 1)).drop_last() =~= ids_of(sent.subrange(0, i)));
    assert(clock.subrange(0, i + 1).drop_last() =~= clock.subrange(0, i));
    lemma_total_record_size_prefix(sent, i);
    lemma_total_record_size_prefix(sent, i + 1);
}

/// What taking the message `m` behind the messages `ms` of a batch, which
/// follow `log`, keeps: the messages are valid, their offsets run on, they
/// follow `log`, and their records are those of `ms` and that of `m`.
pub proof fn lemma_taken(log: Seq<MessageView>, ms: Seq<MessageView>, m: MessageView, now: u64)
    requires
        all_valid(ms),
        follows(ms, log),
        forall|k: int| 0 <= k < ms.len() ==> (#[trigger] ms[k]).offset == log.len() + k,
        m.valid(),
        m.offset == log.len() + ms.len(),
        m.timestamp == stamp(log + ms, now),
    ensures
        all_valid(ms.push(m)),
        follows(ms.push(m), log),
        forall|k: int|
            0 <= k < ms.push(m).len() ==> (#[trigger] ms.push(m)[k]).offset == log.len() + k,
        encode_records(ms.push(m)) == encode_records(ms) + encode_record(m),
        encode_record(m).len() == m.record_size(),
        (log + ms).push(m) == log + ms.push(m),
        ms.push(m).last() == m,
        ms.push(m)[0] == if ms.len() > 0 {
            ms[0]
        } else {
            m
        },
        ms.len() > 0 ==> ms.last().timestamp <= m.timestamp,
{
    let before = log + ms;
    let ms2 = ms.push(m);
    if ms.len() > 0 {
        assert(before.last() == ms.last());
    } else if log.len() > 0 {
        assert(before.last() == log.last());
    }
    lemma_decode_first_of_record(m, Seq::empty());
    assert(ms2.drop_last() =~= ms);
    assert(before.push(m) =~= log + ms2);
    assert forall|a: int, b: int| 0 <= a <= b < ms2.len() implies (#[trigger] ms2[a]).timestamp
        <= (#[trigger] ms2[b]).timestamp by {
        if b == ms.len() && a < ms.len() {
            assert(ms[a].timestamp <= ms.last().timestamp);
        }
    }
}

/// The records of the first messages of `msgs` take no more bytes than
/// those of all, and no record takes less than its fixed fields.
pub proof fn lemma_total_record_size_prefix(msgs: Seq<SentView>, i: int)
    requires
        0 <= i <= msgs.len(),
    ensures
        0 <= total_record_size(msgs.subrange(0, i)) <= total_record_size(msgs),
    decreases msgs.len(),
{
    if msgs.len() == 0 {
        assert(msgs.subrange(0, i) =~= msgs);
    } else if i == msgs.len() {
        assert(msgs.subrange(0, i) =~= msgs);
        lemma_total_record_size_prefix(msgs.drop_last(), i - 1);
    } else {
        lemma_total_record_size_prefix(msgs.drop_last(), i);
        assert(msgs.drop_last().subrange(0, i) =~= msgs.subrange(0, i));
    }
}

/// Where the last segment grows by the messages `ms`, the segments are
/// laid out over the log grown by `ms`.
pub proof fn lemma_segments_grow(
    segs: Seq<Segment>,
    log: Seq<MessageView>,
    ms: Seq<MessageView>,
    grown: Segment,
)
    requires
        segments_chain(segs, log),
        segs.len() > 0,
        grown.wf(),
        grown.start() == segs.last().start(),
        grown.messages() == segs.last().messages() + ms,
    ensures
        segments_chain(segs.drop_last().push(grown), log + ms),
{
    let segs2 = segs.drop_last().push(grown);
    let log2 = log + ms;
    let n = segs.len() as int;
    assert forall|i: int| 0 <= i < segs2.len() implies (#[trigger] segs2[i]).next_offset()
        <= log2.len() && segs2[i].messages() == log2.subrange(
        segs2[i].start() as int,
        segs2[i].next_offset(),
    ) by {
        if i < n - 1 {
            assert(segs2[i] == segs[i]);
            assert(log2.subrange(segs[i].start() as int, segs[i].next_offset()) =~= log.subrange(
                segs[i].start() as int,
                segs[i].next_offset(),
            ));
        } else {
            assert(segs[n - 1].messages() == log.subrange(
                segs[n - 1].start() as int,
                segs[n - 1].next_offset(),
            ));
            assert(grown.messages() =~= log2.subrange(grown.start() as int, log2.len() as int));
        }
    }
    assert forall|i: int, j: int| 0 <= i && j == i + 1 && j < segs2.len() implies (
    #[trigger] segs2[i]).next_offset() == (#[trigger] segs2[j]).start() by {
        assert(segs[i].next_offset() == segs[j].start());
    }
    assert forall|i: int, j: int| 0 <= i < j < segs2.len() implies (
    #[trigger] segs2[i]).next_offset() <= (#[trigger] segs2[j]).start() by {
        assert(segs[i].next_offset() <= segs[j].start());
    }
    assert forall|i: int| 0 < i < segs2.len() - 1 implies (#[trigger] segs2[i]).messages().len()
        > 0 by {
        assert(segs2[i] == segs[i]);
    }
    assert forall|i: int| 0 <= i < segs2.len() - 1 implies (#[trigger] segs2[i]).closed() by {
        assert(segs2[i] == segs[i]);
    }
    assert forall|i: int| 0 <= i < segs2.len() implies (#[trigger] segs2[i]).wf() by {
        if i < n - 1 {
            assert(segs2[i] == segs[i]);
        }
    }
    if n > 1 {
        assert(segs2[0] == segs[0]);
    }
}

/// A fresh segment that starts where the log ends may follow segments
/// whose last one is closed and, unless it is the first, not empty.
pub proof fn lemma_segments_open(segs: Seq<Segment>, log: Seq<MessageView>, fresh: Segment)
    requires
        segments_chain(segs, log),
        segs.len() > 0,
        segs.last().closed(),
        segs.len() > 1 ==> segs.last().messages().len() > 0,
        fresh.wf(),
        fresh.start() == log.len(),
        fresh.messages().len() == 0,
    ensures
        segments_chain(segs.push(fresh), log),
{
    let segs2 = segs.push(fresh);
    let n = segs.len() as int;
    assert forall|i: int| 0 <= i < segs2.len() implies (#[trigger] segs2[i]).next_offset()
        <= log.len() && segs2[i].messages() == log.subrange(
        segs2[i].start() as int,
        segs2[i].next_offset(),
    ) by {
        if i < n {
            assert(segs2[i] == segs[i]);
        } else {
            assert(fresh.messages() =~= log.subrange(log.len() as int, log.len() as int));
        }
    }
    assert forall|i: int, j: int| 0 <= i && j == i + 1 && j < segs2.len() implies (
    #[trigger] segs2[i]).next_offset() == (#[trigger] segs2[j]).start() by {
        if j < n {
            assert(segs[i].next_offset() == segs[j].start());
        }
    }
    assert forall|i: int, j: int| 0 <= i < j < segs2.len() implies (
    #[trigger] segs2[i]).next_offset() <= (#[trigger] segs2[j]).start() by {
        assert(segs2[i] == segs[i]);
        if j < n {
            assert(segs[i].next_offset() <= segs[j].start());
        }
    }
    assert forall|i: int| 0 < i < segs2.len() - 1 implies (#[trigger] segs2[i]).messages().len()
        > 0 by {
        assert(segs2[i] == segs[i]);
    }
    assert forall|i: int| 0 <= i < segs2.len() - 1 implies (#[trigger] segs2[i]).closed() by {
        assert(segs2[i] == segs[i]);
    }
    assert forall|i: int| 0 <= i < segs2.len() implies (#[trigger] segs2[i]).wf() by {
        if i < n {
            assert(segs2[i] == segs[i]);
        }
    }
    assert(segs2[0] == segs[0]);
}

/// Evictions take no more batches than there are.
pub proof fn lemma_evictions_bound(bs: Seq<BatchView>, capacity: int, size: int)
    ensures
        evictions(bs, capacity, size) <= bs.len(),
    decreases bs.len(),
{
    if bs.len() > 0 {
        lemma_evictions_bound(bs.drop_first(), capacity, size);
    }
}

} // verus!
