//! The two indexes of a segment: from offsets to positions in the log file,
//! and from timestamps to offsets.

use crate::buffer::{buf_extend, buf_seq};
use crate::error::Error;
use bytes::BytesMut;
use vstd::bytes::{
    lemma_auto_spec_u32_to_from_le_bytes, lemma_auto_spec_u64_to_from_le_bytes,
    spec_u32_from_le_bytes, spec_u32_to_le_bytes, spec_u64_from_le_bytes, spec_u64_to_le_bytes,
    u32_from_le_bytes, u32_to_le_bytes, u64_from_le_bytes, u64_to_le_bytes,
};
use vstd::prelude::*;
use vstd::slice::slice_subrange;

verus! {

/// The bytes that an entry of the offset index takes in its file.
pub const INDEX_SIZE: u32 = 8;

/// The bytes that an entry of the time index takes in its file.
pub const TIME_INDEX_SIZE: u32 = 12;

/// An entry of the offset index: the batch that starts at the offset
/// `relative_offset`, counted from the start of the segment, stands at the
/// byte `position` of the log file.
#[derive(Debug, Clone, Copy, PartialEq, Eq, Structural)]
pub struct Index {
    pub relative_offset: u32,
    pub position: u32,
}

/// An entry of the time index: the message at the offset `relative_offset`,
/// counted from the start of the segment, the last of its batch, has the
/// timestamp `timestamp`.
#[derive(Debug, Clone, Copy, PartialEq, Eq, Structural)]
pub struct TimeIndex {
    pub relative_offset: u32,
    pub timestamp: u64,
}

/// The entries of `indexes` come in strictly rising order of their offsets.
pub open spec fn offsets_rising(indexes: Seq<Index>) -> bool {
    forall|i: int, j: int|
        0 <= i < j < indexes.len() ==> (#[trigger] indexes[i]).relative_offset < (
        #[trigger] indexes[j]).relative_offset
}

/// The place of the last entry of `indexes` whose offset is `relative_offset`
/// or less, found by halving; none where the first entry is already greater
/// or there is no entry.
pub fn find_by_offset(indexes: &Vec<Index>, relative_offset: u32) -> (found: Option<usize>)
    requires
        offsets_rising(indexes@),
    ensures
        match found {
            Some(k) => {
                &&& k < indexes.len()
                &&& indexes[k as int].relative_offset <= relative_offset
                &&& forall|j: int|
                    k < j < indexes.len() ==> (#[trigger] indexes[j]).relative_offset
                        > relative_offset
            },
            None => forall|j: int|
                0 <= j < indexes.len() ==> (#[trigger] indexes[j]).relative_offset
                    > relative_offset,
        },
{
    let n = indexes.len();
    if n == 0 || indexes[0].relative_offset > relative_offset {
        return None;
    }
    let mut low: usize = 0;
    let mut high: usize = n;
    while high - low > 1
        invariant
            n == indexes.len(),
            0 <= low < high <= n,
            offsets_rising(indexes@),
            indexes[low as int].relative_offset <= relative_offset,
            forall|j: int|
                high <= j < n ==> (#[trigger] indexes[j]).relative_offset > relative_offset,
        decreases high - low,
    {
        let mid = low + (high - low) / 2;
        if indexes[mid].relative_offset <= relative_offset {
            low = mid;
        } else {
            high = mid;
        }
    }
    Some(low)
}

/// The place of the last entry of `entries` whose timestamp is `timestamp`
/// or less; none where there is no such entry.
pub open spec fn last_entry_by(entries: Seq<TimeIndex>, timestamp: u64) -> Option<int>
    decreases entries.len(),
{
    if entries.len() == 0 {
        None
    } else if entries.last().timestamp <= timestamp {
        Some(entries.len() - 1)
    } else {
        last_entry_by(entries.drop_last(), timestamp)
    }
}

/// The place of the last entry of `time_indexes` whose timestamp is
/// `timestamp` or less; none where there is no such entry.
pub fn find_by_timestamp(time_indexes: &Vec<TimeIndex>, timestamp: u64) -> (found: Option<usize>)
    ensures
        match found {
            Some(k) => last_entry_by(time_indexes@, timestamp) == Some(k as int),
            None => last_entry_by(time_indexes@, timestamp) is None,
        },
        match found {
            Some(k) => {
                &&& k < time_indexes.len()
                &&& time_indexes[k as int].timestamp <= timestamp
                &&& forall|j: int|
                    k < j < time_indexes.len() ==> (#[trigger] time_indexes[j]).timestamp
                        > timestamp
            },
            None => forall|j: int|
                0 <= j < time_indexes.len() ==> (#[trigger] time_indexes[j]).timestamp > timestamp,
        },
{
    let mut k: usize = time_indexes.len();
    assert(time_indexes@.subrange(0, k as int) =~= time_indexes@);
    while k > 0
        invariant
            k <= time_indexes.len(),
            forall|j: int|
                k <= j < time_indexes.len() ==> (#[trigger] time_indexes[j]).timestamp > timestamp,
            last_entry_by(time_indexes@, timestamp) == last_entry_by(
                time_indexes@.subrange(0, k as int),
                timestamp,
            ),
        decreases k,
    {
        k = k - 1;
        proof {
            assert(time_indexes@.subrange(0, k + 1).last() == time_indexes[k as int]);
            assert(time_indexes@.subrange(0, k + 1).drop_last() =~= time_indexes@.subrange(
                0,
                k as int,
            ));
        }
        if time_indexes[k].timestamp <= timestamp {
            return Some(k);
        }
    }
    None
}

/// An entry of the offset index as it stands in its file: the offset and
/// the position, each in 32 bits, little-endian.
pub open spec fn encode_index(entry: Index) -> Seq<u8> {
    spec_u32_to_le_bytes(entry.relative_offset) + spec_u32_to_le_bytes(entry.position)
}

/// The entry of the offset index that `bytes` hold; none where they are not
/// as many as an entry takes.
pub open spec fn decode_index(bytes: Seq<u8>) -> Option<Index> {
    if bytes.len() != INDEX_SIZE {
        None
    } else {
        Some(
            Index {
                relative_offset: spec_u32_from_le_bytes(bytes.subrange(0, 4)),
                position: spec_u32_from_le_bytes(bytes.subrange(4, 8)),
            },
        )
    }
}

/// An entry of the time index as it stands in its file: the offset in 32
/// bits and the timestamp in 64, little-endian.
pub open spec fn encode_time_index(entry: TimeIndex) -> Seq<u8> {
    spec_u32_to_le_bytes(entry.relative_offset) + spec_u64_to_le_bytes(entry.timestamp)
}

/// The entry of the time index that `bytes` hold; none where they are not
/// as many as an entry takes.
pub open spec fn decode_time_index(bytes: Seq<u8>) -> Option<TimeIndex> {
    if bytes.len() != TIME_INDEX_SIZE {
        None
    } else {
        Some(
            TimeIndex {
                relative_offset: spec_u32_from_le_bytes(bytes.subrange(0, 4)),
                timestamp: spec_u64_from_le_bytes(bytes.subrange(4, 12)),
            },
        )
    }
}

/// Decoding an encoded entry of either index gives the entry back.
pub proof fn lemma_index_round_trip(entry: Index, time_entry: TimeIndex)
    ensures
        decode_index(encode_index(entry)) == Some(entry),
        decode_time_index(encode_time_index(time_entry)) == Some(time_entry),
{
    lemma_auto_spec_u32_to_from_le_bytes();
    lemma_auto_spec_u64_to_from_le_bytes();
    let e = encode_index(entry);
    assert(e.subrange(0, 4) =~= spec_u32_to_le_bytes(entry.relative_offset));
    assert(e.subrange(4, 8) =~= spec_u32_to_le_bytes(entry.position));
    let t = encode_time_index(time_entry);
    assert(t.subrange(0, 4) =~= spec_u32_to_le_bytes(time_entry.relative_offset));
    assert(t.subrange(4, 12) =~= spec_u64_to_le_bytes(time_entry.timestamp));
}

impl Index {
    /// Adds the entry as it stands in the index file at the end of `bytes`.
    pub fn extend(&self, bytes: &mut BytesMut)
        ensures
            buf_seq(*final(bytes)) == buf_seq(*old(bytes)) + encode_index(*self),
    {
        let ghost before = buf_seq(*bytes);
        buf_extend(bytes, u32_to_le_bytes(self.relative_offset).as_slice());
        buf_extend(bytes, u32_to_le_bytes(self.position).as_slice());
        assert(buf_seq(*bytes) =~= before + encode_index(*self));
    }

    /// The entry that `bytes` hold.
    pub fn try_from_bytes(bytes: &[u8]) -> (decoded: Result<Index, Error>)
        ensures
            match decoded {
                Ok(entry) => decode_index(bytes@) == Some(entry),
                Err(e) => e == Error::Corruption && decode_index(bytes@) is None,
            },
    {
        if bytes.len() != INDEX_SIZE as usize {
            return Err(Error::Corruption);
        }
        Ok(
            Index {
                relative_offset: u32_from_le_bytes(slice_subrange(bytes, 0, 4)),
                position: u32_from_le_bytes(slice_subrange(bytes, 4, 8)),
            },
        )
    }
}

impl TimeIndex {
    /// Adds the entry as it stands in the index file at the end of `bytes`.
    pub fn extend(&self, bytes: &mut BytesMut)
        ensures
            buf_seq(*final(bytes)) == buf_seq(*old(bytes)) + encode_time_index(*self),
    {
        let ghost before = buf_seq(*bytes);
        buf_extend(bytes, u32_to_le_bytes(self.relative_offset).as_slice());
        buf_extend(bytes, u64_to_le_bytes(self.timestamp).as_slice());
        assert(buf_seq(*bytes) =~= before + encode_time_index(*self));
    }

    /// The entry that `bytes` hold.
    pub fn try_from_bytes(bytes: &[u8]) -> (decoded: Result<TimeIndex, Error>)
        ensures
            match decoded {
                Ok(entry) => decode_time_index(bytes@) == Some(entry),
                Err(e) => e == Error::Corruption && decode_time_index(bytes@) is None,
            },
    {
        if bytes.len() != TIME_INDEX_SIZE as usize {
            return Err(Error::Corruption);
        }
        Ok(
            TimeIndex {
                relative_offset: u32_from_le_bytes(slice_subrange(bytes, 0, 4)),
                timestamp: u64_from_le_bytes(slice_subrange(bytes, 4, 12)),
            },
        )
    }
}

} // verus!
