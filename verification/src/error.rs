//! The errors that the log engine reports.

use vstd::prelude::*;

verus! {

/// What an operation of the log engine can fail with.
#[derive(Debug, Clone, Copy, PartialEq, Eq, Structural)]
pub enum Error {
    /// An append found no active segment in the partition.
    SegmentNotFound,
    /// A read asked for zero messages.
    InvalidMessagesCount,
    /// The topic with the given id, in the stream with the given id, has no
    /// partition.
    NoPartitions(u32, u32),
    /// The topic with the second id, in the stream with the third id, has
    /// no partition with the first id.
    PartitionNotFound(u32, u32, u32),
    /// A payload could not be encrypted before an append.
    CannotEncryptData,
    /// A payload could not be decrypted after a poll.
    CannotDecryptData,
    /// Stored bytes do not decode: a record is truncated, a field is out of
    /// range or a checksum does not match.
    Corruption,
    /// A batch was built without its base offset.
    MissingBaseOffsetRetainedMessageBatch,
    /// A batch was built without the offset delta of its last message.
    MissingLastOffsetDeltaRetainedMessageBatch,
    /// A batch was built without its greatest timestamp.
    MissingMaxTimestampRetainedMessageBatch,
    /// A batch was built without its length.
    MissingLengthRetainedMessageBatch,
    /// A batch was built without its payload.
    MissingPayloadRetainedMessageBatch,
}

} // verus!
