//! A segment: one slice of a partition's log, with the image of its log
//! file, an offset index, a time index, and the batches that were appended
//! but not yet written to the file.

use crate::batch::{
    encode_batch, encode_batches, fit_count, lemma_encode_batch_len, total_size, BatchView,
    RetainedMessageBatch, RETAINED_BATCH_OVERHEAD,
};
use crate::buffer::{buf_as_slice, buf_new, buf_seq, bytes_copy_from_slice};
use crate::error::Error;
use crate::iterator::{check_batch, sound};
use crate::chain::{
    append_messages_in_range, batch_views, chained, clip, covers, follows, lemma_chain_push,
    lemma_scan, lemma_scan_start, log_wf, range_end, range_start, scan_cut, stores,
};
use crate::index::{find_by_offset, offsets_rising, Index, TimeIndex};
use crate::message::{message_views, MessageView, RetainedMessage};
use bytes::BytesMut;
use std::sync::Arc;
use vstd::bytes::{
    lemma_auto_spec_u32_to_from_le_bytes, lemma_auto_spec_u64_to_from_le_bytes,
    spec_u32_from_le_bytes, spec_u32_to_le_bytes, spec_u64_from_le_bytes, spec_u64_to_le_bytes,
    u32_from_le_bytes, u64_from_le_bytes,
};
use vstd::prelude::*;
use vstd::slice::slice_subrange;

verus! {

/// A slice of a partition's log that starts at a fixed offset.
pub struct Segment {
    start_offset: u64,
    end_offset: u64,
    current_offset: u64,
    size_bytes: u64,
    max_size_bytes: u32,
    is_closed: bool,
    log_file: BytesMut,
    indexes: Vec<Index>,
    time_indexes: Vec<TimeIndex>,
    unsaved_batches: Vec<Arc<RetainedMessageBatch>>,
    batches: Ghost<Seq<BatchView>>,
    messages: Ghost<Seq<MessageView>>,
}

/// The entry of the time index for the batch `b` in a segment that starts at
/// the offset `first`.
pub open spec fn time_index_of(b: BatchView, first: int) -> TimeIndex {
    TimeIndex {
        relative_offset: (b.last_offset() - first) as u32,
        timestamp: b.max_timestamp,
    }
}

impl Segment {
    /// The offset at which the segment starts.
    pub closed spec fn start(&self) -> u64 {
        self.start_offset
    }

    /// The offset of the last message; the start offset while there is none.
    pub closed spec fn current(&self) -> u64 {
        self.current_offset
    }

    /// The offset up to which the segment is filled.
    pub closed spec fn end(&self) -> u64 {
        self.end_offset
    }

    /// The bytes that the batches of the segment take on disk.
    pub closed spec fn size(&self) -> u64 {
        self.size_bytes
    }

    /// The size from which on the segment is full.
    pub closed spec fn max_size(&self) -> u32 {
        self.max_size_bytes
    }

    /// Whether the segment takes no more batches.
    pub closed spec fn closed(&self) -> bool {
        self.is_closed
    }

    /// The messages of the segment, in the order of their offsets.
    pub closed spec fn messages(&self) -> Seq<MessageView> {
        self.messages@
    }

    /// The batches of the segment, in the order in which they were appended:
    /// first those in the log file, then those not yet written.
    pub closed spec fn batches(&self) -> Seq<BatchView> {
        self.batches@
    }

    /// The number of batches that are not yet written to the log file.
    pub closed spec fn unsaved(&self) -> nat {
        self.unsaved_batches.len() as nat
    }

    /// The time index: one entry for each batch.
    pub closed spec fn time_index(&self) -> Seq<TimeIndex> {
        self.time_indexes@
    }

    /// The image of the log file.
    pub closed spec fn log_image(&self) -> Seq<u8> {
        buf_seq(self.log_file)
    }

    /// What holds of every segment, in terms of what it shows: its messages
    /// run on from the start offset, its batches are a run that holds exactly
    /// these messages, and the offsets, the size and the time index describe
    /// the batches.
    pub open spec fn inv(&self) -> bool {
        let bs = self.batches();
        let log = self.messages();
        let first = self.start() as int;
        &&& log_wf(log, first)
        &&& chained(bs, log, first)
        &&& covers(bs, log, first)
        &&& self.current() == if bs.len() == 0 {
            first
        } else {
            bs.last().last_offset()
        }
        &&& self.end() == self.current()
        &&& self.size() == total_size(bs)
        &&& self.unsaved() <= bs.len()
        &&& self.max_size() > 0
        &&& self.time_index().len() == bs.len()
        &&& forall|k: int|
            0 <= k < bs.len() ==> #[trigger] self.time_index()[k] == time_index_of(bs[k], first)
        &&& forall|k: int| 0 <= k < bs.len() ==> (#[trigger] bs[k]).last_offset() - first <= u32::MAX
    }

    /// The position in the log file at which the batch `k` starts, or would
    /// start: the size of the segment for the place behind the last batch.
    pub closed spec fn position(&self, k: int) -> int {
        if k < self.indexes.len() {
            self.indexes[k].position as int
        } else {
            self.size_bytes as int
        }
    }

    /// The segment is as its operations leave it: `inv` holds, the offset
    /// index names each batch with the position at which it starts, and the
    /// image of the log file holds the written batches at these positions.
    #[verifier::opaque]
    pub closed spec fn wf(&self) -> bool {
        let bs = self.batches@;
        let first = self.start_offset as int;
        let n = bs.len() as int;
        let saved = n - self.unsaved_batches.len();
        &&& self.inv()
        &&& self.indexes.len() == n
        &&& forall|k: int|
            0 <= k < self.unsaved_batches.len() ==> (#[trigger] self.unsaved_batches[k])@ == bs[saved
                + k]
        &&& forall|k: int|
            0 <= k < n ==> (#[trigger] self.indexes[k]).relative_offset == bs[k].base_offset - first
        &&& self.position(0) == 0
        &&& forall|k: int|
            0 <= k < n ==> #[trigger] self.position(k + 1) == self.position(k) + bs[k].size_bytes()
        &&& buf_seq(self.log_file).len() == self.position(saved)
        &&& forall|k: int|
            0 <= k < saved ==> buf_seq(self.log_file).subrange(
                self.position(k),
                #[trigger] self.position(k + 1),
            ) == encode_batch(bs[k])
    }

    /// A segment starts at an offset that 64 bits hold.
    pub proof fn lemma_start(&self)
        ensures
            0 <= self.start() <= u64::MAX,
    {
    }

    /// What `wf` says of what the segment shows.
    pub proof fn lemma_wf(&self)
        requires
            self.wf(),
        ensures
            self.inv(),
    {
        reveal(Segment::wf);
    }

    /// An empty, open segment that starts at `start_offset` and is full from
    /// `max_size_bytes` bytes on (from one byte on where that is zero).
    pub fn create(start_offset: u64, max_size_bytes: u32) -> (segment: Segment)
        ensures
            segment.wf(),
            segment.start() == start_offset,
            segment.current() == start_offset,
            segment.messages() == Seq::<MessageView>::empty(),
            segment.batches() == Seq::<BatchView>::empty(),
            segment.unsaved() == 0,
            segment.size() == 0,
            segment.max_size() == if max_size_bytes == 0 {
                1u32
            } else {
                max_size_bytes
            },
            !segment.closed(),
            segment.log_image() == Seq::<u8>::empty(),
    {
        proof {
            reveal(Segment::wf);
        }
        Segment {
            start_offset,
            end_offset: start_offset,
            current_offset: start_offset,
            size_bytes: 0,
            max_size_bytes: if max_size_bytes == 0 {
                1
            } else {
                max_size_bytes
            },
            is_closed: false,
            log_file: buf_new(),
            indexes: Vec::new(),
            time_indexes: Vec::new(),
            unsaved_batches: Vec::new(),
            batches: Ghost(Seq::empty()),
            messages: Ghost(Seq::empty()),
        }
    }

    /// The offset at which the segment starts.
    pub fn start_offset(&self) -> (offset: u64)
        ensures
            offset == self.start(),
    {
        self.start_offset
    }

    /// The offset of the last message; the start offset while there is none.
    pub fn current_offset(&self) -> (offset: u64)
        ensures
            offset == self.current(),
    {
        self.current_offset
    }

    /// The offset up to which the segment is filled.
    pub fn end_offset(&self) -> (offset: u64)
        ensures
            offset == self.end(),
    {
        self.end_offset
    }

    /// The bytes that the batches of the segment take on disk.
    pub fn size_bytes(&self) -> (size: u64)
        ensures
            size == self.size(),
    {
        self.size_bytes
    }

    /// Whether the segment takes no more batches.
    pub fn is_closed(&self) -> (closed: bool)
        ensures
            closed == self.closed(),
    {
        self.is_closed
    }

    /// Whether the segment has reached its greatest size.
    pub fn is_full(&self) -> (full: bool)
        ensures
            full == (self.size() >= self.max_size()),
    {
        self.size_bytes >= self.max_size_bytes as u64
    }

    /// Whether the segment holds no message.
    pub fn is_empty(&self) -> (empty: bool)
        requires
            self.wf(),
        ensures
            empty == (self.messages().len() == 0),
            empty == (self.batches().len() == 0),
    {
        proof {
            reveal(Segment::wf);
        }
        self.indexes.len() == 0
    }

    /// The time index: one entry for each batch, written or not.
    pub fn time_indexes(&self) -> (indexes: &Vec<TimeIndex>)
        ensures
            indexes@ == self.time_index(),
    {
        &self.time_indexes
    }

    /// The offset index: one entry for each batch, written or not.
    pub fn indexes(&self) -> (indexes: &Vec<Index>)
        requires
            self.wf(),
        ensures
            indexes.len() == self.batches().len(),
            forall|k: int|
                0 <= k < indexes.len() ==> (#[trigger] indexes[k]).relative_offset
                    == self.batches()[k].base_offset - self.start() && indexes[k].position
                    == self.position(k),
    {
        proof {
            reveal(Segment::wf);
        }
        &self.indexes
    }

    /// How the batches lie in the log file: the first at position zero,
    /// each behind the one before it, the written ones in the image as
    /// they are encoded, and the image ends with the last written batch.
    pub proof fn lemma_positions(&self)
        requires
            self.wf(),
        ensures
            self.position(0) == 0,
            forall|k: int|
                0 <= k < self.batches().len() ==> #[trigger] self.position(k + 1) == self.position(
                    k,
                ) + self.batches()[k].size_bytes(),
            self.position(self.batches().len() as int) == self.size(),
            self.log_image().len() == self.position(self.batches().len() - self.unsaved()),
            forall|k: int|
                0 <= k < self.batches().len() - self.unsaved() ==> self.log_image().subrange(
                    self.position(k),
                    #[trigger] self.position(k + 1),
                ) == encode_batch(self.batches()[k]),
    {
        reveal(Segment::wf);
    }

    /// The image of the log file: the written batches, one after the other.
    pub fn log_file(&self) -> (image: &[u8])
        ensures
            image@ == self.log_image(),
    {
        buf_as_slice(&self.log_file)
    }

    /// The offset that the next message of the segment gets.
    pub open spec fn next_offset(&self) -> int {
        self.start() + self.messages().len()
    }

    /// The batch `b` may be appended: the segment is open, `b` is a sound
    /// batch that starts at the next offset and does not go back in time,
    /// and the indexes reach as far as the position and the last offset of
    /// `b`.
    pub open spec fn can_append(&self, b: BatchView) -> bool {
        &&& !self.closed()
        &&& self.size() <= u32::MAX
        &&& b.wf()
        &&& b.base_offset == self.next_offset()
        &&& b.last_offset() - self.start() <= u32::MAX
        &&& follows(b.messages(), self.messages())
    }

    /// Whether `batch` may be appended, found by walking its records.
    pub fn accepts(&self, batch: &Arc<RetainedMessageBatch>) -> (accepted: bool)
        requires
            self.wf(),
        ensures
            accepted == self.can_append(batch@),
    {
        proof {
            reveal(Segment::wf);
        }
        if self.is_closed || self.size_bytes > u32::MAX as u64 {
            return false;
        }
        let first_timestamp = match check_batch(batch) {
            Some(timestamp) => timestamp,
            None => {
                return false;
            },
        };
        if !self.continues_with(batch) {
            return false;
        }
        let n = self.time_indexes.len();
        if n == 0 {
            return true;
        }
        proof {
            lemma_last_timestamp(*self);
            assert(self.time_index()[n - 1] == time_index_of(
                self.batches()[n - 1],
                self.start() as int,
            ));
        }
        self.time_indexes[n - 1].timestamp <= first_timestamp
    }

    /// Stages `batch` in memory behind the batches that the segment has, and
    /// enters it in both indexes.
    pub fn append_batch(&mut self, batch: Arc<RetainedMessageBatch>)
        requires
            old(self).wf(),
            old(self).can_append(batch@),
        ensures
            final(self).wf(),
            final(self).messages() == old(self).messages() + batch@.messages(),
            final(self).batches() == old(self).batches().push(batch@),
            final(self).unsaved() == old(self).unsaved() + 1,
            final(self).current() == batch@.last_offset(),
            final(self).size() == old(self).size() + batch@.size_bytes(),
            final(self).start() == old(self).start(),
            final(self).max_size() == old(self).max_size(),
            final(self).closed() == old(self).closed(),
            final(self).log_image() == old(self).log_image(),
    {
        proof {
            reveal(Segment::wf);
        }
        let ghost bs = self.batches@;
        let ghost log = self.messages@;
        let ghost first = self.start_offset as int;
        let ghost ms = batch@.messages();
        let ghost n = bs.len() as int;
        let ghost saved = n - self.unsaved_batches.len();
        proof {
            if bs.len() > 0 {
                assert(stores(bs[0], log, first));
            }
            lemma_chain_push(bs, log, first, batch@, ms);
        }
        let last_offset: u64 = batch.base_offset + batch.last_offset_delta as u64;
        let index = Index {
            relative_offset: (batch.base_offset - self.start_offset) as u32,
            position: self.size_bytes as u32,
        };
        let time_index = TimeIndex {
            relative_offset: (last_offset - self.start_offset) as u32,
            timestamp: batch.max_timestamp,
        };
        self.indexes.push(index);
        self.time_indexes.push(time_index);
        self.size_bytes = self.size_bytes + batch.get_size_bytes();
        self.current_offset = last_offset;
        self.end_offset = last_offset;
        self.messages = Ghost(log + ms);
        self.batches = Ghost(bs.push(batch@));
        self.unsaved_batches.push(batch);
        proof {
            let bs2 = self.batches@;
            assert forall|k: int| 0 <= k <= n implies self.position(k) == old(self).position(k) by {}
            assert forall|k: int| 0 <= k < bs2.len() implies #[trigger] self.position(k + 1)
                == self.position(k) + bs2[k].size_bytes() by {
                if k < n {
                    assert(old(self).position(k + 1) == old(self).position(k) + bs[k].size_bytes());
                }
            }
            assert forall|k: int| 0 <= k < saved implies buf_seq(self.log_file).subrange(
                self.position(k),
                #[trigger] self.position(k + 1),
            ) == encode_batch(bs2[k]) by {
                assert(old(self).position(k + 1) == old(self).position(k) + bs[k].size_bytes());
            }
            assert forall|k: int| 0 <= k < self.unsaved_batches.len() implies (
            #[trigger] self.unsaved_batches[k])@ == bs2[saved + k] by {
                if k < old(self).unsaved_batches.len() {
                    assert(old(self).unsaved_batches[k]@ == bs[saved + k]);
                }
            }
            assert forall|k: int| 0 <= k < bs2.len() implies #[trigger] self.time_index()[k]
                == time_index_of(bs2[k], first) by {
                if k < n {
                    assert(old(self).time_index()[k] == time_index_of(bs[k], first));
                }
            }
            assert forall|k: int| 0 <= k < bs2.len() implies (#[trigger] bs2[k]).last_offset()
                - first <= u32::MAX by {
                if k < n {
                    assert(bs[k].last_offset() - first <= u32::MAX);
                }
            }
        }
    }

    /// The batch at the place `k`: out of the image of the log file if it
    /// was written, else out of the staged batches.
    fn load_batch(&self, k: usize) -> (batch: Arc<RetainedMessageBatch>)
        requires
            self.wf(),
            k < self.batches().len(),
        ensures
            batch@ == self.batches()[k as int],
    {
        proof {
            reveal(Segment::wf);
        }
        let n = self.indexes.len();
        let saved = n - self.unsaved_batches.len();
        if k >= saved {
            return self.unsaved_batches[k - saved].clone();
        }
        let ghost b = self.batches@[k as int];
        let image = buf_as_slice(&self.log_file);
        let image_len = image.len();
        let pos = self.indexes[k].position as usize;
        proof {
            lemma_auto_spec_u32_to_from_le_bytes();
            lemma_auto_spec_u64_to_from_le_bytes();
            lemma_encode_batch_len(b);
            assert(stores(b, self.messages@, self.start_offset as int));
            assert(self.position(k + 1) == self.position(k as int) + b.size_bytes());
            assert(self.position(saved as int) >= self.position(k + 1)) by {
                self.lemma_positions_rise(k + 1, saved as int);
            }
            let e = image@.subrange(self.position(k as int), self.position(k + 1));
            assert(e == encode_batch(b));
            assert(image@.subrange(pos as int, pos + 8) =~= e.subrange(0, 8));
            assert(image@.subrange(pos + 8, pos + 12) =~= e.subrange(8, 12));
            assert(image@.subrange(pos + 12, pos + 20) =~= e.subrange(12, 20));
            assert(image@.subrange(pos + 20, pos + 24) =~= e.subrange(20, 24));
            assert(e.subrange(0, 8) =~= spec_u64_to_le_bytes(b.base_offset));
            assert(e.subrange(8, 12) =~= spec_u32_to_le_bytes(b.last_offset_delta));
            assert(e.subrange(12, 20) =~= spec_u64_to_le_bytes(b.max_timestamp));
            assert(e.subrange(20, 24) =~= spec_u32_to_le_bytes(b.length));
            assert(image@.subrange(pos + 24, pos + 24 + b.length) =~= e.subrange(
                24,
                24 + b.length,
            ));
            assert(e.subrange(24, 24 + b.length) =~= b.payload);
        }
        let base_offset = u64_from_le_bytes(slice_subrange(image, pos, pos + 8));
        let last_offset_delta = u32_from_le_bytes(slice_subrange(image, pos + 8, pos + 12));
        let max_timestamp = u64_from_le_bytes(slice_subrange(image, pos + 12, pos + 20));
        let length = u32_from_le_bytes(slice_subrange(image, pos + 20, pos + 24));
        let payload = bytes_copy_from_slice(
            slice_subrange(image, pos + 24, pos + 24 + length as usize),
        );
        Arc::new(
            RetainedMessageBatch::new(base_offset, last_offset_delta, max_timestamp, length, payload),
        )
    }

    /// Positions rise with the places of the batches.
    proof fn lemma_positions_rise(&self, i: int, j: int)
        requires
            self.wf(),
            0 <= i <= j <= self.batches().len(),
        ensures
            self.position(i) <= self.position(j),
        decreases j - i,
    {
        reveal(Segment::wf);
        if i < j {
            self.lemma_positions_rise(i, j - 1);
            assert(self.position(j - 1 + 1) == self.position(j - 1) + self.batches@[j
                - 1].size_bytes());
        }
    }

    /// Writes the staged batches to the image of the log file, in their
    /// order. Gives the number of bytes written.
    fn flush(&mut self) -> (written: u64)
        requires
            old(self).wf(),
        ensures
            final(self).wf(),
            final(self).unsaved() == 0,
            final(self).log_image() == old(self).log_image() + encode_batches(
                old(self).batches().subrange(
                    old(self).batches().len() - old(self).unsaved(),
                    old(self).batches().len() as int,
                ),
            ),
            written == final(self).log_image().len() - old(self).log_image().len(),
            final(self).log_image().len() == final(self).size(),
            final(self).closed() == old(self).closed(),
            final(self).messages() == old(self).messages(),
            final(self).batches() == old(self).batches(),
            final(self).start() == old(self).start(),
            final(self).current() == old(self).current(),
            final(self).size() == old(self).size(),
            final(self).max_size() == old(self).max_size(),
    {
        proof {
            reveal(Segment::wf);
        }
        let ghost bs = self.batches@;
        let ghost n = bs.len() as int;
        let ghost saved = n - self.unsaved_batches.len();
        let ghost image0 = buf_seq(self.log_file);
        let count = self.unsaved_batches.len();
        let mut i: usize = 0;
        proof {
            assert(bs.subrange(saved, saved) =~= Seq::<BatchView>::empty());
            assert(image0 + Seq::<u8>::empty() =~= image0);
            assert forall|k: int| 0 <= k < n implies (#[trigger] bs[k]).length
                == bs[k].payload.len() by {
                assert(stores(bs[k], self.messages@, self.start_offset as int));
            }
            assert forall|k: int| 0 <= k < saved implies #[trigger] self.position(k + 1)
                <= image0.len() by {
                self.lemma_positions_rise(k + 1, saved);
            }
        }
        while i < count
            invariant
                n == bs.len(),
                saved == n - count,
                saved >= 0,
                count == self.unsaved_batches.len(),
                0 <= i <= count,
                self.indexes.len() == n,
                forall|k: int|
                    0 <= k < n ==> #[trigger] self.position(k + 1) == self.position(k)
                        + bs[k].size_bytes(),
                forall|k: int| 0 <= k < n ==> (#[trigger] bs[k]).length == bs[k].payload.len(),
                forall|k: int|
                    0 <= k < count ==> (#[trigger] self.unsaved_batches[k])@ == bs[saved + k],
                self.unsaved_batches == old(self).unsaved_batches,
                self.indexes == old(self).indexes,
                self.time_indexes == old(self).time_indexes,
                self.batches == old(self).batches,
                self.messages == old(self).messages,
                self.start_offset == old(self).start_offset,
                self.current_offset == old(self).current_offset,
                self.end_offset == old(self).end_offset,
                self.size_bytes == old(self).size_bytes,
                self.max_size_bytes == old(self).max_size_bytes,
                self.is_closed == old(self).is_closed,
                buf_seq(self.log_file) == image0 + encode_batches(bs.subrange(saved, saved + i)),
                buf_seq(self.log_file).len() == self.position(saved + i),
                forall|k: int|
                    0 <= k < saved + i ==> #[trigger] self.position(k + 1) <= buf_seq(
                        self.log_file,
                    ).len(),
                forall|k: int|
                    0 <= k < saved + i ==> buf_seq(self.log_file).subrange(
                        self.position(k),
                        #[trigger] self.position(k + 1),
                    ) == encode_batch(bs[k]),
            decreases count - i,
        {
            let ghost before = buf_seq(self.log_file);
            let ghost pre = *self;
            let ghost b = bs[saved + i];
            let batch = &self.unsaved_batches[i];
            proof {
                assert(self.unsaved_batches[i as int]@ == bs[saved + i]);
                lemma_encode_batch_len(b);
                assert(self.position(saved + i + 1) == self.position(saved + i) + b.size_bytes());
            }
            batch.extend(&mut self.log_file);
            proof {
                let after = buf_seq(self.log_file);
                assert(bs.subrange(saved, saved + i + 1).drop_last() =~= bs.subrange(
                    saved,
                    saved + i,
                ));
                assert(bs.subrange(saved, saved + i + 1).last() == b);
                assert(after =~= image0 + encode_batches(bs.subrange(saved, saved + i + 1)));
                assert forall|k: int| self.position(k) == pre.position(k) by {}
                assert forall|k: int| 0 <= k < n implies #[trigger] self.position(k + 1)
                    == self.position(k) + bs[k].size_bytes() by {
                    assert(pre.position(k + 1) == pre.position(k) + bs[k].size_bytes());
                }
                assert forall|k: int| 0 <= k < saved + i + 1 implies #[trigger] self.position(
                    k + 1,
                ) <= after.len() by {
                    assert(pre.position(k + 1) == pre.position(k) + bs[k].size_bytes());
                    if k < saved + i {
                        assert(pre.position(k + 1) <= before.len());
                    }
                }
                assert forall|k: int| 0 <= k < saved + i + 1 implies after.subrange(
                    self.position(k),
                    #[trigger] self.position(k + 1),
                ) == encode_batch(bs[k]) by {
                    assert(pre.position(k + 1) == pre.position(k) + bs[k].size_bytes());
                    if k < saved + i {
                        assert(pre.position(k + 1) <= before.len());
                        assert(before.subrange(pre.position(k), pre.position(k + 1))
                            == encode_batch(bs[k]));
                        assert(after.subrange(self.position(k), self.position(k + 1))
                            =~= before.subrange(self.position(k), self.position(k + 1)));
                    } else {
                        assert(after.subrange(self.position(k), self.position(k + 1))
                            =~= encode_batch(b));
                    }
                }
            }
            i = i + 1;
        }
        proof {
            old(self).lemma_positions_rise(saved, n);
            assert forall|k: int| self.position(k) == old(self).position(k) by {}
        }
        let written: u64 = (self.size_bytes - self.position_of_first_unsaved()) as u64;
        let ghost mid = *self;
        self.unsaved_batches = Vec::new();
        proof {
            assert forall|k: int| self.position(k) == mid.position(k) by {}
            assert(bs.subrange(saved, saved + count) =~= bs.subrange(saved, n));
            assert(self.inv());
            assert forall|k: int| 0 <= k < n implies (#[trigger] self.indexes[k]).relative_offset
                == bs[k].base_offset - self.start_offset by {
                assert(old(self).indexes[k].relative_offset == bs[k].base_offset
                    - self.start_offset);
            }
            assert forall|k: int| 0 <= k < n implies #[trigger] self.position(k + 1)
                == self.position(k) + bs[k].size_bytes() by {
                assert(mid.position(k + 1) == mid.position(k) + bs[k].size_bytes());
            }
            assert forall|k: int| 0 <= k < n implies buf_seq(self.log_file).subrange(
                self.position(k),
                #[trigger] self.position(k + 1),
            ) == encode_batch(bs[k]) by {
                assert(buf_seq(mid.log_file).subrange(mid.position(k), mid.position(k + 1))
                    == encode_batch(bs[k]));
            }
            assert(self.position(0) == 0);
            assert(buf_seq(self.log_file).len() == self.position(n));
        }
        written
    }

    /// Writes the staged batches to the image of the log file, in their
    /// order, and closes the segment if it is full. Gives the number of bytes
    /// written.
    pub fn persist_messages(&mut self) -> (written: u64)
        requires
            old(self).wf(),
        ensures
            final(self).wf(),
            final(self).unsaved() == 0,
            final(self).log_image() == old(self).log_image() + encode_batches(
                old(self).batches().subrange(
                    old(self).batches().len() - old(self).unsaved(),
                    old(self).batches().len() as int,
                ),
            ),
            written == final(self).log_image().len() - old(self).log_image().len(),
            final(self).log_image().len() == final(self).size(),
            final(self).closed() == (old(self).closed() || old(self).size() >= old(
                self,
            ).max_size()),
            final(self).messages() == old(self).messages(),
            final(self).batches() == old(self).batches(),
            final(self).start() == old(self).start(),
            final(self).current() == old(self).current(),
            final(self).size() == old(self).size(),
            final(self).max_size() == old(self).max_size(),
    {
        proof {
            reveal(Segment::wf);
        }
        let written = self.flush();
        if self.size_bytes >= self.max_size_bytes as u64 {
            self.mark_closed();
        }
        written
    }

    /// The position in the log file behind the written batches.
    fn position_of_first_unsaved(&self) -> (position: u64)
        requires
            self.indexes.len() == self.batches@.len(),
            self.unsaved_batches.len() <= self.indexes.len(),
        ensures
            position == self.position(self.batches@.len() - self.unsaved_batches.len()),
    {
        let saved = self.indexes.len() - self.unsaved_batches.len();
        if saved < self.indexes.len() {
            self.indexes[saved].position as u64
        } else {
            self.size_bytes
        }
    }

    /// The index in `messages` of the first message that a read from
    /// `offset` gets: the offset counted from the start of the segment, held
    /// within the segment.
    pub open spec fn read_start(&self, offset: u64) -> int {
        clip(offset - self.start(), 0, self.messages().len() as int)
    }

    /// The index in `messages` behind the last message that a read of `count`
    /// messages from `offset` gets.
    pub open spec fn read_end(&self, offset: u64, count: u32) -> int {
        clip(offset + count - self.start(), self.read_start(offset), self.messages().len() as int)
    }

    /// The messages of the segment with offsets from `offset` up to, and
    /// without, `offset + count`: the offset index gives the batch to start
    /// from, and the batches from there on are decoded while they start
    /// within the range.
    pub fn get_messages(&self, offset: u64, count: u32) -> (out: Vec<RetainedMessage>)
        requires
            self.wf(),
        ensures
            message_views(out@) == self.messages().subrange(
                self.read_start(offset),
                self.read_end(offset, count),
            ),
    {
        let mut out: Vec<RetainedMessage> = Vec::new();
        let ghost bs = self.batches@;
        let ghost log = self.messages@;
        let ghost first = self.start_offset as int;
        let n = self.indexes.len();
        proof {
            self.lemma_wf();
            self.lemma_indexes();
            assert(log.subrange(self.read_start(offset), self.read_start(offset)) =~= Seq::<
                MessageView,
            >::empty());
            if n > 0 {
                assert(stores(bs[0], log, first));
                assert(stores(bs[n - 1], log, first));
            }
        }
        if count == 0 || n == 0 || offset > self.current_offset {
            return out;
        }
        let start_offset: u64 = if offset < self.start_offset {
            self.start_offset
        } else {
            offset
        };
        let requested_end: u64 = offset.saturating_add((count - 1) as u64);
        if requested_end < self.start_offset {
            return out;
        }
        let end_offset: u64 = if requested_end > self.current_offset {
            self.current_offset
        } else {
            requested_end
        };
        let ghost lo = range_start(bs, first, start_offset as int);
        let ghost hi = range_end(bs, first, start_offset as int, end_offset as int);
        let relative: u32 = (start_offset - self.start_offset) as u32;
        let mut k: usize = match find_by_offset(&self.indexes, relative) {
            Some(k) => k,
            None => 0,
        };
        proof {
            assert(lo == self.read_start(offset));
            assert(hi == self.read_end(offset, count));
            assert(self.indexes[0].relative_offset == bs[0].base_offset - first);
            assert(self.indexes[k as int].relative_offset == bs[k as int].base_offset - first);
            lemma_scan_start(bs, log, first, k as int, start_offset, end_offset);
            assert(message_views(out@) =~= log.subrange(lo, lo));
        }
        while k < n && self.start_offset + self.indexes[k].relative_offset as u64 <= end_offset
            invariant
                self.wf(),
                bs == self.batches(),
                log == self.messages(),
                first == self.start_offset as int,
                chained(bs, log, first),
                n == self.indexes.len(),
                n == bs.len(),
                k <= n,
                forall|j: int|
                    0 <= j < n ==> (#[trigger] self.indexes[j]).relative_offset + first
                        == bs[j].base_offset,
                lo == range_start(bs, first, start_offset as int),
                hi == range_end(bs, first, start_offset as int, end_offset as int),
                hi <= end_offset + 1 - first,
                message_views(out@) == log.subrange(lo, scan_cut(bs, first, k as int, lo, hi)),
            ensures
                message_views(out@) == log.subrange(lo, hi),
            decreases n - k,
        {
            let ghost b = bs[k as int];
            let ghost ms = log.subrange(b.base_offset - first, b.last_offset() - first + 1);
            proof {
                lemma_scan(bs, log, first, k as int, start_offset, end_offset);
            }
            let batch = self.load_batch(k);
            if batch.is_contained_or_overlapping_within_offset_range(start_offset, end_offset) {
                append_messages_in_range(&batch, start_offset, end_offset, &mut out, Ghost(ms));
            }
            k = k + 1;
        }
        proof {
            if k < n {
                assert(self.indexes[k as int].relative_offset + first == bs[k as int].base_offset);
            } else {
                assert(stores(bs[n - 1], log, first));
            }
        }
        out
    }

    /// The offset index has an entry for each batch, with the offset at
    /// which the batch starts, and rises strictly.
    proof fn lemma_indexes(&self)
        requires
            self.wf(),
        ensures
            self.indexes@.len() == self.batches().len(),
            forall|j: int|
                0 <= j < self.indexes@.len() ==> (#[trigger] self.indexes[j]).relative_offset
                    + self.start_offset == self.batches()[j].base_offset,
            offsets_rising(self.indexes@),
    {
        reveal(Segment::wf);
        self.lemma_offsets_rising();
    }

    /// The offset index rises strictly.
    proof fn lemma_offsets_rising(&self)
        requires
            self.wf(),
        ensures
            offsets_rising(self.indexes@),
    {
        reveal(Segment::wf);
        let bs = self.batches@;
        let first = self.start_offset as int;
        assert forall|i: int, j: int| 0 <= i < j < self.indexes.len() implies (
        #[trigger] self.indexes[i]).relative_offset < (#[trigger] self.indexes[j]).relative_offset by {
            assert(bs[i].last_offset() < bs[j].base_offset);
        }
    }

    /// Every batch of the segment, in the order of the offsets.
    pub fn get_all_batches(&self) -> (out: Vec<Arc<RetainedMessageBatch>>)
        requires
            self.wf(),
        ensures
            batch_views(out@) == self.batches(),
    {
        proof {
            reveal(Segment::wf);
        }
        self.load_batches_from(0)
    }

    /// The batches from the place `from` on.
    fn load_batches_from(&self, from: usize) -> (out: Vec<Arc<RetainedMessageBatch>>)
        requires
            self.wf(),
            from <= self.batches().len(),
        ensures
            batch_views(out@) == self.batches().subrange(
                from as int,
                self.batches().len() as int,
            ),
    {
        proof {
            reveal(Segment::wf);
        }
        let mut out: Vec<Arc<RetainedMessageBatch>> = Vec::new();
        let n = self.indexes.len();
        let mut k: usize = from;
        let ghost bs = self.batches@;
        assert(batch_views(out@) =~= bs.subrange(from as int, from as int));
        while k < n
            invariant
                self.wf(),
                bs == self.batches@,
                n == bs.len(),
                from <= k <= n,
                batch_views(out@) == bs.subrange(from as int, k as int),
            decreases n - k,
        {
            let batch = self.load_batch(k);
            let ghost prev = batch_views(out@);
            out.push(batch);
            assert(batch_views(out@) =~= prev.push(bs[k as int]));
            assert(bs.subrange(from as int, k + 1) =~= bs.subrange(from as int, k as int).push(
                bs[k as int],
            ));
            k = k + 1;
        }
        out
    }

    /// The newest batches of the segment that fit together into
    /// `size_bytes` bytes: the longest run at the end of the segment, in the
    /// order of the offsets.
    pub fn get_newest_message_batches_by_size(&self, size_bytes: u64) -> (out: Vec<
        Arc<RetainedMessageBatch>,
    >)
        requires
            self.wf(),
        ensures
            batch_views(out@) == self.batches().subrange(
                self.batches().len() - fit_count(self.batches(), size_bytes as int),
                self.batches().len() as int,
            ),
    {
        proof {
            reveal(Segment::wf);
        }
        let n = self.indexes.len();
        let mut k: usize = n;
        let mut remaining: u64 = size_bytes;
        let ghost bs = self.batches@;
        assert(bs.subrange(0, n as int) =~= bs);
        while k > 0
            invariant
                self.wf(),
                bs == self.batches@,
                n == bs.len(),
                n == self.indexes.len(),
                k <= n,
                fit_count(bs, size_bytes as int) == (n - k) + fit_count(
                    bs.subrange(0, k as int),
                    remaining as int,
                ),
            ensures
                k <= n,
                fit_count(bs, size_bytes as int) == n - k,
            decreases k,
        {
            let next_position: u64 = if k < n {
                self.indexes[k].position as u64
            } else {
                self.size_bytes
            };
            proof {
                reveal(Segment::wf);
                assert(self.position(k - 1 + 1) == self.position(k - 1) + bs[k - 1].size_bytes());
                assert(bs.subrange(0, k as int).last() == bs[k - 1]);
                assert(bs.subrange(0, k as int).drop_last() =~= bs.subrange(0, k - 1));
            }
            let size: u64 = next_position - self.indexes[k - 1].position as u64;
            if size > remaining {
                break ;
            }
            remaining = remaining - size;
            k = k - 1;
        }
        self.load_batches_from(k)
    }

    /// Whether the indexes of the segment reach as far as the last offset
    /// of `batch`.
    pub fn can_index(&self, batch: &RetainedMessageBatch) -> (reaches: bool)
        requires
            self.start() <= batch.base_offset,
        ensures
            reaches == (batch@.last_offset() - self.start() <= u32::MAX),
    {
        batch.base_offset - self.start_offset <= u32::MAX as u64 - batch.last_offset_delta as u64
    }

    /// Writes the staged batches to the image of the log file and closes the
    /// segment, full or not.
    pub fn close(&mut self)
        requires
            old(self).wf(),
        ensures
            final(self).wf(),
            final(self).closed(),
            final(self).unsaved() == 0,
            final(self).log_image() == old(self).log_image() + encode_batches(
                old(self).batches().subrange(
                    old(self).batches().len() - old(self).unsaved(),
                    old(self).batches().len() as int,
                ),
            ),
            final(self).messages() == old(self).messages(),
            final(self).batches() == old(self).batches(),
            final(self).start() == old(self).start(),
            final(self).current() == old(self).current(),
            final(self).size() == old(self).size(),
            final(self).max_size() == old(self).max_size(),
    {
        proof {
            reveal(Segment::wf);
        }
        self.flush();
        self.mark_closed();
    }

    /// The segment that the log file image `image` holds, for a segment
    /// that starts at `start_offset` and is full from `max_size_bytes` bytes
    /// on. The image is gone through batch by batch; each batch has to be
    /// sound, to start at the offset behind the batch before it, and not to
    /// go back in time. The indexes are made anew. An image that does not
    /// pass is reported as corrupted.
    pub fn load(start_offset: u64, max_size_bytes: u32, image: &[u8]) -> (loaded: Result<
        Segment,
        Error,
    >)
        ensures
            match loaded {
                Ok(segment) => {
                    &&& scan_log(image@, 0, start_offset as int, start_offset as int, None)
                        == Some(segment.batches())
                    &&& segment.wf()
                    &&& segment.start() == start_offset
                    &&& segment.log_image() == image@
                    &&& segment.unsaved() == 0
                    &&& segment.max_size() == if max_size_bytes == 0 {
                        1u32
                    } else {
                        max_size_bytes
                    }
                    &&& segment.closed() == (segment.size() >= segment.max_size())
                },
                Err(e) => e == Error::Corruption && scan_log(
                    image@,
                    0,
                    start_offset as int,
                    start_offset as int,
                    None,
                ) is None,
            },
    {
        proof {
            reveal(Segment::wf);
        }
        let mut segment = Segment::create(start_offset, max_size_bytes);
        let n = image.len();
        let mut position: usize = 0;
        let mut floor: Option<u64> = None;
        let ghost first = start_offset as int;
        proof {
            assert(image@.subrange(0, 0) =~= Seq::<u8>::empty());
            match scan_log(image@, 0, first, first, None) {
                Some(rest) => {
                    assert(Seq::<BatchView>::empty() + rest =~= rest);
                },
                None => {},
            }
        }
        while position < n
            invariant
                n == image@.len(),
                position <= n,
                first == start_offset,
                segment.wf(),
                segment.unsaved() == 0,
                segment.start() == start_offset,
                segment.max_size() == if max_size_bytes == 0 {
                    1u32
                } else {
                    max_size_bytes
                },
                !segment.closed(),
                segment.size() == position,
                segment.log_image() == image@.subrange(0, position as int),
                floor == last_timestamp(segment.messages()),
                scan_log(image@, 0, first, first, None) == match scan_log(
                    image@,
                    position as int,
                    first,
                    segment.next_offset(),
                    floor,
                ) {
                    Some(rest) => Some(segment.batches() + rest),
                    None => None,
                },
            decreases n - position,
        {
            let batch = match parse_batch(image, position) {
                Some(batch) => batch,
                None => {
                    return Err(Error::Corruption);
                },
            };
            if !segment.fits(&batch, position, floor) {
                return Err(Error::Corruption);
            }
            let end: usize = position + RETAINED_BATCH_OVERHEAD as usize + batch.length as usize;
            proof {
                lemma_load_step(
                    image@,
                    position as int,
                    first,
                    segment.next_offset(),
                    floor,
                    segment.batches(),
                    segment.messages(),
                );
            }
            let max_timestamp = batch.max_timestamp;
            segment.take_written(batch);
            floor = Some(max_timestamp);
            position = end;
        }
        proof {
            assert(image@.subrange(0, n as int) =~= image@);
            assert(segment.batches() + Seq::<BatchView>::empty() =~= segment.batches());
        }
        if segment.is_full() {
            segment.mark_closed();
        }
        Ok(segment)
    }

    /// Whether `batch` may stand at the byte `position` of the log file,
    /// behind the batches that the segment has, the last message of which,
    /// if there is one, has the timestamp `floor`.
    fn fits(&self, batch: &Arc<RetainedMessageBatch>, position: usize, floor: Option<u64>) -> (fits:
        bool)
        requires
            self.wf(),
            floor == last_timestamp(self.messages()),
        ensures
            fits == fits_segment(
                batch@,
                self.start() as int,
                self.next_offset(),
                position as int,
                floor,
            ),
    {
        let first_timestamp = match check_batch(batch) {
            Some(timestamp) => timestamp,
            None => {
                return false;
            },
        };
        let in_time = match floor {
            Some(timestamp) => timestamp <= first_timestamp,
            None => true,
        };
        self.continues_with(batch) && position <= u32::MAX as usize && in_time
    }

    /// Enters `batch` behind the batches that the segment has, all of them
    /// written, as another written batch.
    fn take_written(&mut self, batch: Arc<RetainedMessageBatch>)
        requires
            old(self).wf(),
            old(self).unsaved() == 0,
            old(self).can_append(batch@),
        ensures
            final(self).wf(),
            final(self).unsaved() == 0,
            final(self).messages() == old(self).messages() + batch@.messages(),
            final(self).batches() == old(self).batches().push(batch@),
            final(self).size() == old(self).size() + batch@.size_bytes(),
            final(self).start() == old(self).start(),
            final(self).max_size() == old(self).max_size(),
            final(self).closed() == old(self).closed(),
            final(self).log_image() == old(self).log_image() + encode_batches(seq![batch@]),
            last_timestamp(final(self).messages()) == Some(batch.max_timestamp),
    {
        let ghost b = batch@;
        let ghost before = self.batches();
        self.append_batch(batch);
        self.flush();
        proof {
            lemma_last_timestamp(*self);
            let n = before.len() as int;
            assert(before.push(b).subrange(n, n + 1) =~= seq![b]);
        }
    }

    /// Whether `batch` starts at the offset behind the last message of the
    /// segment and ends within the reach of its indexes.
    fn continues_with(&self, batch: &RetainedMessageBatch) -> (continues: bool)
        requires
            self.wf(),
            batch@.last_offset() <= u64::MAX,
        ensures
            continues == (batch.base_offset == self.next_offset() && batch@.last_offset()
                - self.start() <= u32::MAX),
    {
        proof {
            reveal(Segment::wf);
        }
        proof {
            self.lemma_wf();
            if self.batches@.len() > 0 {
                assert(stores(self.batches@[0], self.messages@, self.start_offset as int));
            }
        }
        if self.indexes.len() == 0 {
            batch.base_offset == self.start_offset && self.can_index(batch)
        } else {
            self.current_offset < u64::MAX && batch.base_offset == self.current_offset + 1
                && self.can_index(batch)
        }
    }

    /// Closes the segment without writing anything.
    fn mark_closed(&mut self)
        requires
            old(self).wf(),
        ensures
            final(self).wf(),
            final(self).closed(),
            final(self).unsaved() == old(self).unsaved(),
            final(self).log_image() == old(self).log_image(),
            final(self).messages() == old(self).messages(),
            final(self).batches() == old(self).batches(),
            final(self).start() == old(self).start(),
            final(self).current() == old(self).current(),
            final(self).size() == old(self).size(),
            final(self).max_size() == old(self).max_size(),
    {
        proof {
            reveal(Segment::wf);
        }
        let ghost mid = *self;
        self.is_closed = true;
        proof {
            assert forall|k: int| self.position(k) == mid.position(k) by {}
            assert(self.inv());
            assert forall|k: int| 0 <= k < self.batches@.len() implies #[trigger] self.position(
                k + 1,
            ) == self.position(k) + self.batches@[k].size_bytes() by {
                assert(mid.position(k + 1) == mid.position(k) + mid.batches@[k].size_bytes());
            }
            assert forall|k: int|
                0 <= k < self.batches@.len() - self.unsaved_batches.len() implies buf_seq(
                self.log_file,
            ).subrange(self.position(k), #[trigger] self.position(k + 1)) == encode_batch(
                self.batches@[k],
            ) by {
                assert(buf_seq(mid.log_file).subrange(mid.position(k), mid.position(k + 1))
                    == encode_batch(mid.batches@[k]));
            }
        }
    }
}

/// The first batch of the log file image `image`, and the bytes that it
/// takes; none where the image is too short for the header of a batch or
/// for the payload that the header announces.
pub open spec fn decode_batch(image: Seq<u8>) -> Option<(BatchView, int)> {
    if image.len() < RETAINED_BATCH_OVERHEAD {
        None
    } else {
        let length = spec_u32_from_le_bytes(image.subrange(20, 24));
        if RETAINED_BATCH_OVERHEAD + length > image.len() {
            None
        } else {
            Some(
                (
                    BatchView {
                        base_offset: spec_u64_from_le_bytes(image.subrange(0, 8)),
                        last_offset_delta: spec_u32_from_le_bytes(image.subrange(8, 12)),
                        max_timestamp: spec_u64_from_le_bytes(image.subrange(12, 20)),
                        length,
                        payload: image.subrange(24, 24 + length),
                    },
                    24 + length,
                ),
            )
        }
    }
}

/// The batch `b` may stand at the byte `position` of the log file of a
/// segment that starts at the offset `first`, behind messages up to the
/// offset `expected` the last of which, if there is one, has the timestamp
/// `floor`: it is sound, starts at `expected`, does not go back in time, and
/// lies within the reach of the indexes.
pub open spec fn fits_segment(
    b: BatchView,
    first: int,
    expected: int,
    position: int,
    floor: Option<u64>,
) -> bool {
    &&& sound(b)
    &&& b.base_offset == expected
    &&& b.last_offset() - first <= u32::MAX
    &&& position <= u32::MAX
    &&& floor matches Some(timestamp) ==> timestamp <= b.messages()[0].timestamp
}

/// The batches that the log file image `image` holds from the byte
/// `position` on, for a segment that starts at the offset `first` and has,
/// before `position`, messages up to the offset `expected`, the last of
/// them with the timestamp `floor`. None where some batch does not decode or
/// may not stand where it stands.
pub open spec fn scan_log(
    image: Seq<u8>,
    position: int,
    first: int,
    expected: int,
    floor: Option<u64>,
) -> Option<Seq<BatchView>>
    decreases image.len() - position,
{
    if position < 0 || position >= image.len() {
        Some(Seq::empty())
    } else {
        match decode_batch(image.subrange(position, image.len() as int)) {
            None => None,
            Some((b, used)) => {
                if used < RETAINED_BATCH_OVERHEAD || !fits_segment(
                    b,
                    first,
                    expected,
                    position,
                    floor,
                ) {
                    None
                } else {
                    match scan_log(
                        image,
                        position + used,
                        first,
                        b.last_offset() + 1,
                        Some(b.max_timestamp),
                    ) {
                        None => None,
                        Some(rest) => Some(seq![b] + rest),
                    }
                }
            },
        }
    }
}

/// The timestamp of the last of `ms`, if there is a message.
pub open spec fn last_timestamp(ms: Seq<MessageView>) -> Option<u64> {
    if ms.len() > 0 {
        Some(ms.last().timestamp)
    } else {
        None
    }
}

/// The last message of a segment that has a batch has the timestamp that
/// its last batch names as its greatest.
proof fn lemma_last_timestamp(segment: Segment)
    requires
        segment.wf(),
        segment.batches().len() > 0,
    ensures
        last_timestamp(segment.messages()) == Some(segment.batches().last().max_timestamp),
{
    reveal(Segment::wf);
    let bs = segment.batches();
    let first = segment.start() as int;
    assert(stores(bs[bs.len() - 1], segment.messages(), first));
    let held = segment.messages().subrange(
        bs[bs.len() - 1].base_offset - first,
        bs[bs.len() - 1].last_offset() - first + 1,
    );
    assert(held.last() == segment.messages().last());
}

/// Where the batch at the byte `position` of `image` may stand there, the
/// batches from `position` on are that batch and those behind it, the
/// batch follows the messages `log`, and it stands in the image as it is
/// encoded.
proof fn lemma_load_step(
    image: Seq<u8>,
    position: int,
    first: int,
    expected: int,
    floor: Option<u64>,
    bs: Seq<BatchView>,
    log: Seq<MessageView>,
)
    requires
        0 <= position < image.len(),
        decode_batch(image.subrange(position, image.len() as int)) is Some,
        fits_segment(
            decode_batch(image.subrange(position, image.len() as int)).unwrap().0,
            first,
            expected,
            position,
            floor,
        ),
        floor == last_timestamp(log),
    ensures
        ({
            let (b, used) = decode_batch(image.subrange(position, image.len() as int)).unwrap();
            &&& used == b.size_bytes()
            &&& position + used <= image.len()
            &&& follows(b.messages(), log)
            &&& image.subrange(0, position) + encode_batches(seq![b]) == image.subrange(
                0,
                position + used,
            )
            &&& (match scan_log(image, position, first, expected, floor) {
                Some(rest) => Some(bs + rest),
                None => None,
            }) == (match scan_log(
                image,
                position + used,
                first,
                b.last_offset() + 1,
                Some(b.max_timestamp),
            ) {
                Some(rest) => Some(bs.push(b) + rest),
                None => None,
            })
        }),
{
    let rest_image = image.subrange(position, image.len() as int);
    let (b, used) = decode_batch(rest_image).unwrap();
    lemma_decode_batch_encodes(rest_image);
    reveal_with_fuel(encode_batches, 2);
    assert(seq![b].drop_last() =~= Seq::<BatchView>::empty());
    assert(encode_batches(seq![b]) =~= encode_batch(b));
    assert(image.subrange(0, position) + rest_image.subrange(0, used) =~= image.subrange(
        0,
        position + used,
    ));
    match scan_log(image, position + used, first, b.last_offset() + 1, Some(b.max_timestamp)) {
        Some(rest) => {
            assert(bs.push(b) + rest =~= bs + (seq![b] + rest));
        },
        None => {},
    }
}

/// The batch at the byte `position` of the log file image `image`, with a
/// copy of its payload; none where the image is too short for it.
fn parse_batch(image: &[u8], position: usize) -> (parsed: Option<Arc<RetainedMessageBatch>>)
    requires
        position <= image@.len(),
    ensures
        match parsed {
            Some(batch) => decode_batch(image@.subrange(position as int, image@.len() as int))
                == Some((batch@, batch@.size_bytes())) && position + batch@.size_bytes()
                <= image@.len(),
            None => decode_batch(image@.subrange(position as int, image@.len() as int)) is None,
        },
{
    let n = image.len();
    let ghost rest_image = image@.subrange(position as int, n as int);
    if n - position < RETAINED_BATCH_OVERHEAD as usize {
        return None;
    }
    let base_offset = u64_from_le_bytes(slice_subrange(image, position, position + 8));
    let last_offset_delta = u32_from_le_bytes(slice_subrange(image, position + 8, position + 12));
    let max_timestamp = u64_from_le_bytes(slice_subrange(image, position + 12, position + 20));
    let length = u32_from_le_bytes(slice_subrange(image, position + 20, position + 24));
    proof {
        assert(image@.subrange(position as int, position + 8) =~= rest_image.subrange(0, 8));
        assert(image@.subrange(position + 8, position + 12) =~= rest_image.subrange(8, 12));
        assert(image@.subrange(position + 12, position + 20) =~= rest_image.subrange(12, 20));
        assert(image@.subrange(position + 20, position + 24) =~= rest_image.subrange(20, 24));
    }
    if length as u64 > (n - position - RETAINED_BATCH_OVERHEAD as usize) as u64 {
        return None;
    }
    let end: usize = position + RETAINED_BATCH_OVERHEAD as usize + length as usize;
    let payload = bytes_copy_from_slice(
        slice_subrange(image, position + RETAINED_BATCH_OVERHEAD as usize, end),
    );
    proof {
        assert(image@.subrange(position + 24, end as int) =~= rest_image.subrange(
            24,
            24 + length,
        ));
    }
    Some(
        Arc::new(
            RetainedMessageBatch::new(base_offset, last_offset_delta, max_timestamp, length, payload),
        ),
    )
}

/// The first batch of a log file image stands in the image as it is
/// encoded.
pub proof fn lemma_decode_batch_encodes(image: Seq<u8>)
    requires
        decode_batch(image) is Some,
    ensures
        encode_batch(decode_batch(image).unwrap().0) == image.subrange(
            0,
            decode_batch(image).unwrap().1,
        ),
{
    lemma_auto_spec_u32_to_from_le_bytes();
    lemma_auto_spec_u64_to_from_le_bytes();
    let (b, used) = decode_batch(image).unwrap();
    assert(spec_u64_to_le_bytes(b.base_offset) == image.subrange(0, 8));
    assert(spec_u32_to_le_bytes(b.last_offset_delta) == image.subrange(8, 12));
    assert(spec_u64_to_le_bytes(b.max_timestamp) == image.subrange(12, 20));
    assert(spec_u32_to_le_bytes(b.length) == image.subrange(20, 24));
    assert(encode_batch(b) =~= image.subrange(0, used));
}

} // verus!
