//! Walking the messages of a batch, record by record.

use crate::batch::{
    decode_first, decode_records, lemma_decode_records_step, BatchView, RetainedMessageBatch,
};
use crate::buffer::{bytes_as_slice, bytes_len, bytes_seq, bytes_slice};
use crate::message::{MessageView, RetainedMessage};
use std::sync::Arc;
use vstd::bytes::u32_from_le_bytes;
use vstd::prelude::*;
use vstd::slice::slice_subrange;

verus! {

/// A value that can be walked item by item.
pub trait IntoBatchIterator {
    type Item;

    type IntoIter;

    /// The walk over this value, from its start.
    fn into_iter(self) -> Self::IntoIter;
}

/// A walk over the messages of a batch, forward only. It hands out messages
/// whose payload and headers share the storage of the batch.
pub struct RetainedMessageBatchIterator {
    batch: Arc<RetainedMessageBatch>,
    current_position: u32,
}

impl RetainedMessageBatchIterator {
    /// The batch that is walked.
    pub closed spec fn batch(&self) -> BatchView {
        self.batch@
    }

    /// The number of bytes that the walk has passed.
    pub closed spec fn position(&self) -> int {
        self.current_position as int
    }

    /// The bytes that the walk has not passed yet.
    pub open spec fn remaining(&self) -> Seq<u8> {
        let readable = self.batch().readable();
        if self.position() <= readable.len() {
            readable.subrange(self.position(), readable.len() as int)
        } else {
            Seq::empty()
        }
    }

    /// The number of bytes that the walk has not passed yet.
    pub fn remaining_bytes(&self) -> (left: usize)
        ensures
            left == self.remaining().len(),
    {
        let len = bytes_len(&self.batch.bytes);
        let limit: usize = if (self.batch.length as usize) <= len {
            self.batch.length as usize
        } else {
            len
        };
        if self.current_position as usize <= limit {
            limit - self.current_position as usize
        } else {
            0
        }
    }

    /// A walk over `batch`, from its first record.
    pub fn new(batch: Arc<RetainedMessageBatch>) -> (iterator: RetainedMessageBatchIterator)
        ensures
            iterator.batch() == batch@,
            iterator.position() == 0,
            iterator.remaining() == batch@.readable(),
    {
        proof {
            let readable = batch@.readable();
            assert(readable.subrange(0, readable.len() as int) =~= readable);
        }
        RetainedMessageBatchIterator { batch, current_position: 0 }
    }

    /// The message of the next record, and the walk moves behind it. Where
    /// no bytes are left, or the next record does not decode, there is no
    /// message and the walk is over: nothing of a broken record is handed
    /// out, and nothing behind it.
    pub fn next(&mut self) -> (item: Option<RetainedMessage>)
        ensures
            final(self).batch() == old(self).batch(),
            match item {
                Some(m) => {
                    &&& decode_first(old(self).remaining()) is Some
                    &&& decode_first(old(self).remaining()).unwrap().0 == m@
                    &&& final(self).remaining() == old(self).remaining().subrange(
                        decode_first(old(self).remaining()).unwrap().1,
                        old(self).remaining().len() as int,
                    )
                },
                None => {
                    &&& decode_first(old(self).remaining()) is None
                    &&& final(self).remaining().len() == 0
                },
            },
    {
        let len = bytes_len(&self.batch.bytes);
        let limit: usize = if (self.batch.length as usize) <= len {
            self.batch.length as usize
        } else {
            len
        };
        let pos = self.current_position as usize;
        let ghost readable = self.batch@.readable();
        let ghost rest = self.remaining();
        if pos >= limit || limit - pos < 4 {
            self.current_position = limit as u32;
            return None;
        }
        let s = bytes_as_slice(&self.batch.bytes);
        let n = u32_from_le_bytes(slice_subrange(s, pos, pos + 4));
        assert(s@.subrange(pos as int, pos + 4) =~= rest.subrange(0, 4));
        if n as u64 > (limit - pos - 4) as u64 {
            self.current_position = limit as u32;
            return None;
        }
        let end: usize = pos + 4 + n as usize;
        let body = bytes_slice(&self.batch.bytes, pos + 4, end);
        assert(bytes_seq(body) =~= rest.subrange(4, 4 + n));
        match RetainedMessage::try_from_bytes(body) {
            Ok(m) => {
                self.current_position = end as u32;
                assert(self.remaining() =~= rest.subrange(4 + n, rest.len() as int));
                Some(m)
            },
            Err(_) => {
                self.current_position = limit as u32;
                None
            },
        }
    }
}

impl IntoBatchIterator for Arc<RetainedMessageBatch> {
    type Item = RetainedMessage;

    type IntoIter = RetainedMessageBatchIterator;

    fn into_iter(self) -> (iterator: RetainedMessageBatchIterator)
        ensures
            iterator.batch() == self@,
            iterator.position() == 0,
            iterator.remaining() == self@.readable(),
    {
        RetainedMessageBatchIterator::new(self)
    }
}

/// The timestamps of `ms` never go back.
pub open spec fn timestamps_rise(ms: Seq<MessageView>) -> bool {
    forall|i: int, j: int|
        0 <= i <= j < ms.len() ==> (#[trigger] ms[i]).timestamp <= (#[trigger] ms[j]).timestamp
}

/// The batch `b` is sound: its payload decodes, its header describes what
/// the payload decodes to, and the timestamps of its messages never go
/// back.
pub open spec fn sound(b: BatchView) -> bool {
    b.wf() && timestamps_rise(b.messages())
}

/// Whether `batch` is sound, found by walking its records: the timestamp of
/// its first message if it is, none if it is not.
pub fn check_batch(batch: &Arc<RetainedMessageBatch>) -> (first_timestamp: Option<u64>)
    ensures
        match first_timestamp {
            Some(timestamp) => sound(batch@) && timestamp == batch@.messages()[0].timestamp,
            None => !sound(batch@),
        },
{
    let ghost b = batch@;
    if batch.length as usize != bytes_len(&batch.bytes) {
        return None;
    }
    if batch.base_offset > u64::MAX - batch.last_offset_delta as u64 {
        return None;
    }
    let mut iterator = RetainedMessageBatchIterator::new(batch.clone());
    let ghost mut done: Seq<MessageView> = Seq::empty();
    let mut count: u64 = 0;
    let mut first: u64 = 0;
    let mut last: u64 = 0;
    proof {
        assert(b.readable() =~= b.payload);
        match decode_records(b.payload) {
            Some(tail) => {
                assert(done + tail =~= tail);
            },
            None => {},
        }
    }
    loop
        invariant
            b == batch@,
            iterator.batch() == b,
            b.length == b.payload.len(),
            b.base_offset + b.last_offset_delta <= u64::MAX,
            count == done.len(),
            count <= b.last_offset_delta + 1,
            decode_records(b.payload) == match decode_records(iterator.remaining()) {
                Some(tail) => Some(done + tail),
                None => None,
            },
            forall|i: int| 0 <= i < done.len() ==> (#[trigger] done[i]).offset == b.base_offset + i,
            timestamps_rise(done),
            done.len() > 0 ==> first == done[0].timestamp && last == done.last().timestamp,
        ensures
            decode_records(b.payload) == Some(done),
        decreases iterator.remaining().len(),
    {
        let left = iterator.remaining_bytes();
        let ghost rest = iterator.remaining();
        if left == 0 {
            proof {
                reveal_with_fuel(decode_records, 1);
                assert(decode_records(rest) == Some(Seq::<MessageView>::empty()));
                assert(done + Seq::<MessageView>::empty() =~= done);
            }
            break ;
        }
        proof {
            match decode_records(rest) {
                Some(tail) => {
                    lemma_decode_records_step(rest);
                },
                None => {},
            }
        }
        match iterator.next() {
            Some(message) => {
                proof {
                    let used = decode_first(rest).unwrap().1;
                    lemma_decode_first_used(rest);
                    match decode_records(rest.subrange(used, rest.len() as int)) {
                        Some(tail) => {
                            assert(done.push(message@) + tail =~= done + (seq![message@] + tail));
                        },
                        None => {},
                    }
                }
                if count > batch.last_offset_delta as u64 || message.offset != batch.base_offset
                    + count || (count > 0 && message.timestamp < last) {
                    proof {
                        lemma_unsound_prefix(b, done.push(message@), iterator.remaining());
                    }
                    return None;
                }
                if count == 0 {
                    first = message.timestamp;
                }
                last = message.timestamp;
                proof {
                    let done2 = done.push(message@);
                    assert forall|i: int, j: int| 0 <= i <= j < done2.len() implies (
                    #[trigger] done2[i]).timestamp <= (#[trigger] done2[j]).timestamp by {
                        if j == done.len() && i < done.len() {
                            assert(done[i].timestamp <= done.last().timestamp);
                        }
                    }
                    done = done2;
                }
                count = count + 1;
            },
            None => {
                proof {
                    assert(decode_records(rest) is None) by {
                        if decode_records(rest) is Some {
                            lemma_decode_records_step(rest);
                        }
                    }
                }
                return None;
            },
        }
    }
    if count == batch.last_offset_delta as u64 + 1 && last == batch.max_timestamp {
        Some(first)
    } else {
        None
    }
}

/// The first record of bytes takes four bytes at least, and no more bytes
/// than there are.
pub proof fn lemma_decode_first_used(b: Seq<u8>)
    requires
        decode_first(b) is Some,
    ensures
        4 <= decode_first(b).unwrap().1 <= b.len(),
{
}

/// A batch whose payload starts with the messages `seen`, which are not
/// the first messages of a sound batch, is not sound.
pub proof fn lemma_unsound_prefix(b: BatchView, seen: Seq<MessageView>, rest: Seq<u8>)
    requires
        decode_records(b.payload) == match decode_records(rest) {
            Some(tail) => Some(seen + tail),
            None => None,
        },
        seen.len() > 0,
        seen.len() > b.last_offset_delta + 1 || seen.last().offset != b.base_offset + seen.len()
            - 1 || (seen.len() > 1 && seen.last().timestamp < seen[seen.len() - 2].timestamp),
    ensures
        !sound(b),
{
    if sound(b) {
        let ms = b.messages();
        let tail = decode_records(rest).unwrap();
        assert(ms == seen + tail);
        let n = seen.len() as int;
        assert(ms[n - 1] == seen.last());
        if n > 1 {
            assert(ms[n - 2] == seen[n - 2]);
        }
    }
}

} // verus!
