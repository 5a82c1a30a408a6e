//! Batches of retained messages: the records of a batch, one after the other
//! in a shared buffer, under a small header.

use crate::buffer::{buf_extend, buf_seq, bytes_as_slice, bytes_seq};
use crate::error::Error;
use crate::message::{
    decode_body, encode_body, encode_record, lemma_decode_encode_body, lemma_encode_body_len,
    MessageView,
};
use bytes::{Bytes, BytesMut};
use vstd::bytes::{
    lemma_auto_spec_u32_to_from_le_bytes, spec_u32_from_le_bytes, spec_u32_to_le_bytes,
    spec_u64_to_le_bytes, u32_to_le_bytes, u64_to_le_bytes,
};
use vstd::prelude::*;

verus! {

/// The bytes of a batch on disk before its payload: base offset, offset
/// delta of the last message, greatest timestamp and length.
pub const RETAINED_BATCH_OVERHEAD: u32 = 24;

/// A batch of retained messages. `bytes` holds their records one after the
/// other; the other fields describe them.
#[derive(Debug, Clone)]
pub struct RetainedMessageBatch {
    pub base_offset: u64,
    pub last_offset_delta: u32,
    pub max_timestamp: u64,
    pub length: u32,
    pub bytes: Bytes,
}

/// What a batch holds.
pub struct BatchView {
    pub base_offset: u64,
    pub last_offset_delta: u32,
    pub max_timestamp: u64,
    pub length: u32,
    pub payload: Seq<u8>,
}

impl View for RetainedMessageBatch {
    type V = BatchView;

    open spec fn view(&self) -> BatchView {
        BatchView {
            base_offset: self.base_offset,
            last_offset_delta: self.last_offset_delta,
            max_timestamp: self.max_timestamp,
            length: self.length,
            payload: bytes_seq(self.bytes),
        }
    }
}

/// The first record of `b`: its message and the number of bytes it takes.
/// None where `b` is too short for the length field or for the body that the
/// field announces, or where the body does not decode.
pub open spec fn decode_first(b: Seq<u8>) -> Option<(MessageView, int)> {
    if b.len() < 4 {
        None
    } else {
        let n = spec_u32_from_le_bytes(b.subrange(0, 4));
        if 4 + n > b.len() {
            None
        } else {
            match decode_body(b.subrange(4, 4 + n)) {
                Some(m) => Some((m, 4 + n)),
                None => None,
            }
        }
    }
}

/// The messages whose records make up `b` exactly; none where some record
/// does not decode or bytes are left over.
pub open spec fn decode_records(b: Seq<u8>) -> Option<Seq<MessageView>>
    decreases b.len(),
{
    if b.len() == 0 {
        Some(Seq::empty())
    } else {
        match decode_first(b) {
            None => None,
            Some((m, used)) => {
                if 4 <= used <= b.len() {
                    match decode_records(b.subrange(used, b.len() as int)) {
                        None => None,
                        Some(rest) => Some(seq![m] + rest),
                    }
                } else {
                    None
                }
            },
        }
    }
}

/// The records of `ms`, one after the other.
pub open spec fn encode_records(ms: Seq<MessageView>) -> Seq<u8>
    decreases ms.len(),
{
    if ms.len() == 0 {
        Seq::empty()
    } else {
        encode_records(ms.drop_last()) + encode_record(ms.last())
    }
}

/// Each message of `ms` is valid.
pub open spec fn all_valid(ms: Seq<MessageView>) -> bool {
    forall|i: int| 0 <= i < ms.len() ==> (#[trigger] ms[i]).valid()
}

/// The first record of an encoded valid message, followed by anything, is
/// that message.
pub proof fn lemma_decode_first_of_record(m: MessageView, tail: Seq<u8>)
    requires
        m.valid(),
    ensures
        decode_first(encode_record(m) + tail) == Some((m, encode_record(m).len() as int)),
        encode_record(m).len() == m.record_size(),
{
    lemma_auto_spec_u32_to_from_le_bytes();
    lemma_encode_body_len(m);
    lemma_decode_encode_body(m);
    let body = encode_body(m);
    let b = encode_record(m) + tail;
    assert(b.subrange(0, 4) =~= spec_u32_to_le_bytes(body.len() as u32));
    assert(b.subrange(4, 4 + body.len() as int) =~= body);
}

/// A record added behind records that decode is decoded behind them.
pub proof fn lemma_decode_records_push(a: Seq<u8>, m: MessageView)
    requires
        decode_records(a) is Some,
        m.valid(),
    ensures
        decode_records(a + encode_record(m)) == Some(decode_records(a).unwrap().push(m)),
    decreases a.len(),
{
    let r = encode_record(m);
    if a.len() == 0 {
        reveal_with_fuel(decode_records, 2);
        lemma_decode_first_of_record(m, Seq::empty());
        assert(a + r =~= r + Seq::<u8>::empty());
        assert((a + r).subrange(r.len() as int, (a + r).len() as int) =~= Seq::<u8>::empty());
        assert(seq![m] + Seq::<MessageView>::empty() =~= Seq::<MessageView>::empty().push(m));
    } else {
        let (m0, used) = decode_first(a).unwrap();
        let rest = a.subrange(used, a.len() as int);
        let b = a + r;
        assert(b.subrange(0, 4) =~= a.subrange(0, 4));
        assert(b.subrange(4, used) =~= a.subrange(4, used));
        assert(decode_first(b) == Some((m0, used)));
        assert(b.subrange(used, b.len() as int) =~= rest + r);
        lemma_decode_records_push(rest, m);
        assert(seq![m0] + decode_records(rest).unwrap().push(m) =~= (seq![m0] + decode_records(
            rest,
        ).unwrap()).push(m));
    }
}

/// Decoding the records of valid messages gives the messages back.
pub proof fn lemma_decode_encode_records(ms: Seq<MessageView>)
    requires
        all_valid(ms),
    ensures
        decode_records(encode_records(ms)) == Some(ms),
    decreases ms.len(),
{
    if ms.len() > 0 {
        lemma_decode_encode_records(ms.drop_last());
        lemma_decode_records_push(encode_records(ms.drop_last()), ms.last());
        assert(ms.drop_last().push(ms.last()) =~= ms);
    }
}

/// Where bytes decode to messages, the messages tell the bytes apart: no
/// messages, no bytes; else the first record is the first message, and the
/// bytes behind it decode to the others.
pub proof fn lemma_decode_records_step(b: Seq<u8>)
    requires
        decode_records(b) is Some,
    ensures
        decode_records(b).unwrap().len() == 0 <==> b.len() == 0,
        b.len() > 0 ==> {
            &&& decode_first(b) is Some
            &&& decode_first(b).unwrap().0 == decode_records(b).unwrap()[0]
            &&& 4 <= decode_first(b).unwrap().1 <= b.len()
            &&& decode_records(b.subrange(decode_first(b).unwrap().1, b.len() as int)) == Some(
                decode_records(b).unwrap().drop_first(),
            )
        },
{
    if b.len() > 0 {
        let (m, used) = decode_first(b).unwrap();
        let rest = decode_records(b.subrange(used, b.len() as int)).unwrap();
        assert((seq![m] + rest).drop_first() =~= rest);
    }
}

/// A batch as it stands in a log file: base offset, offset delta of the last
/// message, greatest timestamp and length, little-endian, then the payload.
pub open spec fn encode_batch(b: BatchView) -> Seq<u8> {
    spec_u64_to_le_bytes(b.base_offset) + spec_u32_to_le_bytes(b.last_offset_delta)
        + spec_u64_to_le_bytes(b.max_timestamp) + spec_u32_to_le_bytes(b.length) + b.payload
}

/// The bytes that the batches `bs` take on disk.
pub open spec fn total_size(bs: Seq<BatchView>) -> int
    decreases bs.len(),
{
    if bs.len() == 0 {
        0
    } else {
        total_size(bs.drop_last()) + bs.last().size_bytes()
    }
}

/// The batches `bs` as they stand in a log file, one after the other.
pub open spec fn encode_batches(bs: Seq<BatchView>) -> Seq<u8>
    decreases bs.len(),
{
    if bs.len() == 0 {
        Seq::empty()
    } else {
        encode_batches(bs.drop_last()) + encode_batch(bs.last())
    }
}

/// The number of batches at the end of `bs` that fit together into `budget`
/// bytes: the longest such run, counted from the last batch back.
pub open spec fn fit_count(bs: Seq<BatchView>, budget: int) -> nat
    decreases bs.len(),
{
    if bs.len() == 0 || bs.last().size_bytes() > budget {
        0
    } else {
        1 + fit_count(bs.drop_last(), budget - bs.last().size_bytes())
    }
}

/// The size of two runs of batches is the sum of their sizes.
pub proof fn lemma_total_size_add(a: Seq<BatchView>, b: Seq<BatchView>)
    ensures
        total_size(a + b) == total_size(a) + total_size(b),
    decreases b.len(),
{
    if b.len() == 0 {
        assert(a + b =~= a);
    } else {
        lemma_total_size_add(a, b.drop_last());
        assert((a + b).drop_last() =~= a + b.drop_last());
        assert((a + b).last() == b.last());
    }
}

/// The length of a batch as it stands in a log file.
pub proof fn lemma_encode_batch_len(b: BatchView)
    ensures
        encode_batch(b).len() == RETAINED_BATCH_OVERHEAD + b.payload.len(),
{
    lemma_auto_spec_u32_to_from_le_bytes();
    vstd::bytes::lemma_auto_spec_u64_to_from_le_bytes();
}

impl BatchView {
    /// The offset of the last message.
    pub open spec fn last_offset(self) -> int {
        self.base_offset + self.last_offset_delta
    }

    /// The bytes that the batch takes on disk.
    pub open spec fn size_bytes(self) -> int {
        RETAINED_BATCH_OVERHEAD + self.length
    }

    /// The part of the payload that `length` covers.
    pub open spec fn readable(self) -> Seq<u8> {
        if self.length <= self.payload.len() {
            self.payload.subrange(0, self.length as int)
        } else {
            self.payload
        }
    }

    /// The batch holds exactly the messages `ms`: its payload is their
    /// records, its header describes them, and their offsets run on from the
    /// base offset.
    pub open spec fn holds(self, ms: Seq<MessageView>) -> bool {
        &&& decode_records(self.payload) == Some(ms)
        &&& self.length == self.payload.len()
        &&& ms.len() == self.last_offset_delta + 1
        &&& self.base_offset + self.last_offset_delta <= u64::MAX
        &&& self.max_timestamp == ms.last().timestamp
        &&& forall|i: int| 0 <= i < ms.len() ==> (#[trigger] ms[i]).offset == self.base_offset + i
    }

    /// The messages of the batch, where its payload decodes.
    pub open spec fn messages(self) -> Seq<MessageView> {
        decode_records(self.payload).unwrap()
    }

    /// The payload decodes, and the header describes what it decodes to.
    pub open spec fn wf(self) -> bool {
        &&& decode_records(self.payload) is Some
        &&& self.holds(self.messages())
    }
}

impl RetainedMessageBatch {
    /// A batch with the given fields.
    pub fn new(
        base_offset: u64,
        last_offset_delta: u32,
        max_timestamp: u64,
        length: u32,
        bytes: Bytes,
    ) -> (batch: RetainedMessageBatch)
        ensures
            batch.base_offset == base_offset,
            batch.last_offset_delta == last_offset_delta,
            batch.max_timestamp == max_timestamp,
            batch.length == length,
            batch.bytes == bytes,
    {
        RetainedMessageBatch { base_offset, last_offset_delta, max_timestamp, length, bytes }
    }

    /// A builder with no field set.
    pub fn builder() -> (builder: RetainedMessageBatchBuilder)
        ensures
            builder.base_offset is None,
            builder.last_offset_delta is None,
            builder.max_timestamp is None,
            builder.length is None,
            builder.payload is None,
    {
        RetainedMessageBatchBuilder::new()
    }

    /// The bytes that the batch takes on disk: header and payload.
    pub fn get_size_bytes(&self) -> (size: u64)
        ensures
            size == self@.size_bytes(),
    {
        RETAINED_BATCH_OVERHEAD as u64 + self.length as u64
    }

    /// The offset of the last message; `u64::MAX` where the sum does not fit.
    pub fn get_last_offset(&self) -> (offset: u64)
        ensures
            offset == if self@.last_offset() <= u64::MAX {
                self@.last_offset()
            } else {
                u64::MAX as int
            },
    {
        self.base_offset.saturating_add(self.last_offset_delta as u64)
    }

    /// Adds the batch as it stands in a log file at the end of `bytes`.
    pub fn extend(&self, bytes: &mut BytesMut)
        ensures
            buf_seq(*final(bytes)) == buf_seq(*old(bytes)) + encode_batch(self@),
    {
        let ghost before = buf_seq(*bytes);
        buf_extend(bytes, u64_to_le_bytes(self.base_offset).as_slice());
        buf_extend(bytes, u32_to_le_bytes(self.last_offset_delta).as_slice());
        buf_extend(bytes, u64_to_le_bytes(self.max_timestamp).as_slice());
        buf_extend(bytes, u32_to_le_bytes(self.length).as_slice());
        buf_extend(bytes, bytes_as_slice(&self.bytes));
        assert(buf_seq(*bytes) =~= before + encode_batch(self@));
    }

    /// Whether some message of the batch may have its offset within
    /// `start_offset..=end_offset`: the batch starts at or before the end of
    /// the range and ends at or after its start.
    pub fn is_contained_or_overlapping_within_offset_range(
        &self,
        start_offset: u64,
        end_offset: u64,
    ) -> (overlaps: bool)
        ensures
            overlaps == (self.base_offset <= end_offset && (self@.last_offset() >= start_offset)),
    {
        self.base_offset <= end_offset && self.get_last_offset() >= start_offset
    }
}

/// Collects the fields of a batch one by one.
pub struct RetainedMessageBatchBuilder {
    pub base_offset: Option<u64>,
    pub last_offset_delta: Option<u32>,
    pub max_timestamp: Option<u64>,
    pub length: Option<u32>,
    pub payload: Option<Bytes>,
}

impl RetainedMessageBatchBuilder {
    fn new() -> (builder: RetainedMessageBatchBuilder)
        ensures
            builder.base_offset is None,
            builder.last_offset_delta is None,
            builder.max_timestamp is None,
            builder.length is None,
            builder.payload is None,
    {
        RetainedMessageBatchBuilder {
            base_offset: None,
            last_offset_delta: None,
            max_timestamp: None,
            length: None,
            payload: None,
        }
    }

    /// Sets the base offset.
    pub fn base_offset(self, base_offset: u64) -> (builder: RetainedMessageBatchBuilder)
        ensures
            builder == (RetainedMessageBatchBuilder { base_offset: Some(base_offset), ..self }),
    {
        let mut builder = self;
        builder.base_offset = Some(base_offset);
        builder
    }

    /// Sets the offset delta of the last message.
    pub fn last_offset_delta(self, last_offset_delta: u32) -> (builder:
        RetainedMessageBatchBuilder)
        ensures
            builder == (RetainedMessageBatchBuilder {
                last_offset_delta: Some(last_offset_delta),
                ..self
            }),
    {
        let mut builder = self;
        builder.last_offset_delta = Some(last_offset_delta);
        builder
    }

    /// Sets the greatest timestamp.
    pub fn max_timestamp(self, max_timestamp: u64) -> (builder: RetainedMessageBatchBuilder)
        ensures
            builder == (RetainedMessageBatchBuilder { max_timestamp: Some(max_timestamp), ..self }),
    {
        let mut builder = self;
        builder.max_timestamp = Some(max_timestamp);
        builder
    }

    /// Sets the length of the payload.
    pub fn length(self, length: u32) -> (builder: RetainedMessageBatchBuilder)
        ensures
            builder == (RetainedMessageBatchBuilder { length: Some(length), ..self }),
    {
        let mut builder = self;
        builder.length = Some(length);
        builder
    }

    /// Sets the payload.
    pub fn payload(self, payload: Bytes) -> (builder: RetainedMessageBatchBuilder)
        ensures
            builder == (RetainedMessageBatchBuilder { payload: Some(payload), ..self }),
    {
        let mut builder = self;
        builder.payload = Some(payload);
        builder
    }

    /// The batch with the fields that were set. Where fields are missing, the
    /// first of them, in the order base offset, offset delta, timestamp,
    /// length, payload, is reported.
    pub fn build(self) -> (built: Result<RetainedMessageBatch, Error>)
        ensures
            match built {
                Ok(batch) => {
                    &&& self.base_offset == Some(batch.base_offset)
                    &&& self.last_offset_delta == Some(batch.last_offset_delta)
                    &&& self.max_timestamp == Some(batch.max_timestamp)
                    &&& self.length == Some(batch.length)
                    &&& self.payload == Some(batch.bytes)
                },
                Err(e) => {
                    if self.base_offset is None {
                        e == Error::MissingBaseOffsetRetainedMessageBatch
                    } else if self.last_offset_delta is None {
                        e == Error::MissingLastOffsetDeltaRetainedMessageBatch
                    } else if self.max_timestamp is None {
                        e == Error::MissingMaxTimestampRetainedMessageBatch
                    } else if self.length is None {
                        e == Error::MissingLengthRetainedMessageBatch
                    } else {
                        e == Error::MissingPayloadRetainedMessageBatch && self.payload is None
                    }
                },
            },
    {
        let base_offset = match self.base_offset {
            Some(v) => v,
            None => {
                return Err(Error::MissingBaseOffsetRetainedMessageBatch);
            },
        };
        let last_offset_delta = match self.last_offset_delta {
            Some(v) => v,
            None => {
                return Err(Error::MissingLastOffsetDeltaRetainedMessageBatch);
            },
        };
        let max_timestamp = match self.max_timestamp {
            Some(v) => v,
            None => {
                return Err(Error::MissingMaxTimestampRetainedMessageBatch);
            },
        };
        let length = match self.length {
            Some(v) => v,
            None => {
                return Err(Error::MissingLengthRetainedMessageBatch);
            },
        };
        let bytes = match self.payload {
            Some(v) => v,
            None => {
                return Err(Error::MissingPayloadRetainedMessageBatch);
            },
        };
        Ok(RetainedMessageBatch { base_offset, last_offset_delta, max_timestamp, length, bytes })
    }
}

} // verus!
