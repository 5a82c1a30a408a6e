//! Messages as callers send them, messages as the log retains them, and the
//! byte layout of one retained message.

use crate::buffer::{
    buf_extend, buf_seq, bytes_as_slice, bytes_len, bytes_seq, bytes_slice,
};
use crate::error::Error;
use crate::utils::{calculate_checksum, checksum_of};
use bytes::{Bytes, BytesMut};
use vstd::bytes::{
    lemma_auto_spec_u128_to_from_le_bytes, lemma_auto_spec_u32_to_from_le_bytes,
    lemma_auto_spec_u64_to_from_le_bytes, spec_u128_from_le_bytes, spec_u128_to_le_bytes,
    spec_u32_from_le_bytes, spec_u32_to_le_bytes, spec_u64_from_le_bytes, spec_u64_to_le_bytes,
    u128_from_le_bytes, u128_to_le_bytes, u32_from_le_bytes, u32_to_le_bytes, u64_from_le_bytes,
    u64_to_le_bytes,
};
use vstd::prelude::*;
use vstd::slice::slice_subrange;

verus! {

/// The bytes of a record body before the payload: offset, state, timestamp,
/// id, checksum and payload length.
pub const RECORD_HEADER_SIZE: u32 = 41;

/// The bytes that a message's id and its length field take in a request.
pub const MESSAGE_METADATA_SIZE: u32 = 20;

/// The state of a retained message.
#[derive(Debug, Clone, Copy, PartialEq, Eq, Structural)]
pub enum MessageState {
    Available,
    Unavailable,
    Poisoned,
    MarkedForDeletion,
}

/// The code that stands for a state in a record.
pub open spec fn state_code(state: MessageState) -> u8 {
    match state {
        MessageState::Available => 1,
        MessageState::Unavailable => 10,
        MessageState::Poisoned => 20,
        MessageState::MarkedForDeletion => 30,
    }
}

/// The state that a code stands for, if it stands for one.
pub open spec fn state_of_code(code: u8) -> Option<MessageState> {
    if code == 1 {
        Some(MessageState::Available)
    } else if code == 10 {
        Some(MessageState::Unavailable)
    } else if code == 20 {
        Some(MessageState::Poisoned)
    } else if code == 30 {
        Some(MessageState::MarkedForDeletion)
    } else {
        None
    }
}

impl MessageState {
    /// The code of this state.
    pub fn as_code(&self) -> (code: u8)
        ensures
            code == state_code(*self),
    {
        match self {
            MessageState::Available => 1,
            MessageState::Unavailable => 10,
            MessageState::Poisoned => 20,
            MessageState::MarkedForDeletion => 30,
        }
    }

    /// The state with the given code; a code that stands for no state is
    /// reported as corruption.
    pub fn from_code(code: u8) -> (state: Result<MessageState, Error>)
        ensures
            match state {
                Ok(s) => state_of_code(code) == Some(s),
                Err(e) => e == Error::Corruption && state_of_code(code) is None,
            },
    {
        if code == 1 {
            Ok(MessageState::Available)
        } else if code == 10 {
            Ok(MessageState::Unavailable)
        } else if code == 20 {
            Ok(MessageState::Poisoned)
        } else if code == 30 {
            Ok(MessageState::MarkedForDeletion)
        } else {
            Err(Error::Corruption)
        }
    }
}

/// The bytes of optional headers: none where there are no headers.
pub open spec fn headers_seq(headers: Option<Bytes>) -> Seq<u8> {
    match headers {
        Some(h) => bytes_seq(h),
        None => Seq::empty(),
    }
}

/// A message as a caller sends it: an id, a payload, and headers in their
/// serialized form.
#[derive(Debug, Clone)]
pub struct Message {
    pub id: u128,
    pub payload: Bytes,
    pub headers: Option<Bytes>,
}

/// What a sent message holds.
pub struct SentView {
    pub id: u128,
    pub payload: Seq<u8>,
    pub headers: Seq<u8>,
}

impl View for Message {
    type V = SentView;

    open spec fn view(&self) -> SentView {
        SentView {
            id: self.id,
            payload: bytes_seq(self.payload),
            headers: headers_seq(self.headers),
        }
    }
}

impl SentView {
    /// The record of this message fits the 32-bit length that precedes it.
    pub open spec fn fits(self) -> bool {
        RECORD_HEADER_SIZE + self.payload.len() + self.headers.len() <= u32::MAX
    }

    /// The bytes that the record of this message takes in a batch.
    pub open spec fn record_size(self) -> int {
        4 + RECORD_HEADER_SIZE + self.payload.len() + self.headers.len()
    }

    /// This message as the log retains it under the given offset and
    /// timestamp.
    pub open spec fn retained(self, offset: u64, timestamp: u64) -> MessageView {
        MessageView {
            id: self.id,
            offset,
            timestamp,
            checksum: checksum_of(self.payload),
            state: MessageState::Available,
            headers: self.headers,
            payload: self.payload,
        }
    }
}

impl Message {
    /// A message with the given id, payload and headers.
    pub fn new(id: u128, payload: Bytes, headers: Option<Bytes>) -> (message: Message)
        ensures
            message.id == id,
            message.payload == payload,
            message.headers == headers,
    {
        Message { id, payload, headers }
    }

    /// The bytes that this message takes in a request: id, length field,
    /// payload and headers; `u32::MAX` where that is more than 32 bits hold.
    pub fn get_size_bytes(&self) -> (size: u32)
        ensures
            size == if MESSAGE_METADATA_SIZE + self@.payload.len() + self@.headers.len()
                <= u32::MAX {
                MESSAGE_METADATA_SIZE + self@.payload.len() + self@.headers.len()
            } else {
                u32::MAX as int
            },
    {
        let payload_len = bytes_len(&self.payload) as u64;
        let headers_len = match &self.headers {
            Some(h) => bytes_len(h) as u64,
            None => 0u64,
        };
        if payload_len <= u32::MAX as u64 && headers_len <= u32::MAX as u64 {
            let total: u64 = MESSAGE_METADATA_SIZE as u64 + payload_len + headers_len;
            if total <= u32::MAX as u64 {
                return total as u32;
            }
        }
        u32::MAX
    }
}

/// A message as the log retains it.
#[derive(Debug, Clone)]
pub struct RetainedMessage {
    pub id: u128,
    pub offset: u64,
    pub timestamp: u64,
    pub checksum: u32,
    pub message_state: MessageState,
    pub headers: Option<Bytes>,
    pub payload: Bytes,
}

/// What a retained message holds.
pub struct MessageView {
    pub id: u128,
    pub offset: u64,
    pub timestamp: u64,
    pub checksum: u32,
    pub state: MessageState,
    pub headers: Seq<u8>,
    pub payload: Seq<u8>,
}

impl View for RetainedMessage {
    type V = MessageView;

    open spec fn view(&self) -> MessageView {
        MessageView {
            id: self.id,
            offset: self.offset,
            timestamp: self.timestamp,
            checksum: self.checksum,
            state: self.message_state,
            headers: headers_seq(self.headers),
            payload: bytes_seq(self.payload),
        }
    }
}

impl MessageView {
    /// The checksum is that of the payload, and the record fits the 32-bit
    /// length that precedes it.
    pub open spec fn valid(self) -> bool {
        &&& self.checksum == checksum_of(self.payload)
        &&& RECORD_HEADER_SIZE + self.payload.len() + self.headers.len() <= u32::MAX
    }

    /// The bytes that the record of this message takes in a batch.
    pub open spec fn record_size(self) -> int {
        4 + RECORD_HEADER_SIZE + self.payload.len() + self.headers.len()
    }
}

/// What the retained messages of `v` hold, in their order.
pub open spec fn message_views(v: Seq<RetainedMessage>) -> Seq<MessageView> {
    v.map_values(|m: RetainedMessage| m@)
}

/// The body of a record: offset, state, timestamp, id, checksum and payload
/// length, little-endian, then the payload, then the headers.
pub open spec fn encode_body(m: MessageView) -> Seq<u8> {
    spec_u64_to_le_bytes(m.offset) + seq![state_code(m.state)] + spec_u64_to_le_bytes(m.timestamp)
        + spec_u128_to_le_bytes(m.id) + spec_u32_to_le_bytes(m.checksum) + spec_u32_to_le_bytes(
        m.payload.len() as u32,
    ) + m.payload + m.headers
}

/// A record: the length of the body in 32 bits, little-endian, then the body.
pub open spec fn encode_record(m: MessageView) -> Seq<u8> {
    spec_u32_to_le_bytes(encode_body(m).len() as u32) + encode_body(m)
}

/// The message that a record body holds; none where the body is shorter than
/// its fixed fields, names no state, announces more payload than it has, or
/// carries a checksum that is not that of its payload.
pub open spec fn decode_body(b: Seq<u8>) -> Option<MessageView> {
    if b.len() < RECORD_HEADER_SIZE {
        None
    } else {
        let payload_len = spec_u32_from_le_bytes(b.subrange(37, 41));
        if state_of_code(b[8]) is None || RECORD_HEADER_SIZE + payload_len > b.len() {
            None
        } else {
            let payload = b.subrange(41, 41 + payload_len);
            let checksum = spec_u32_from_le_bytes(b.subrange(33, 37));
            if checksum != checksum_of(payload) {
                None
            } else {
                Some(
                    MessageView {
                        id: spec_u128_from_le_bytes(b.subrange(17, 33)),
                        offset: spec_u64_from_le_bytes(b.subrange(0, 8)),
                        timestamp: spec_u64_from_le_bytes(b.subrange(9, 17)),
                        checksum,
                        state: state_of_code(b[8]).unwrap(),
                        headers: b.subrange(41 + payload_len, b.len() as int),
                        payload,
                    },
                )
            }
        }
    }
}

/// The length of a record body.
pub proof fn lemma_encode_body_len(m: MessageView)
    ensures
        encode_body(m).len() == RECORD_HEADER_SIZE + m.payload.len() + m.headers.len(),
{
    lemma_auto_spec_u32_to_from_le_bytes();
    lemma_auto_spec_u64_to_from_le_bytes();
    lemma_auto_spec_u128_to_from_le_bytes();
}

/// Decoding the body of a valid message gives the message back.
pub proof fn lemma_decode_encode_body(m: MessageView)
    requires
        m.valid(),
    ensures
        decode_body(encode_body(m)) == Some(m),
{
    lemma_auto_spec_u32_to_from_le_bytes();
    lemma_auto_spec_u64_to_from_le_bytes();
    lemma_auto_spec_u128_to_from_le_bytes();
    let b = encode_body(m);
    let plen = m.payload.len() as u32;
    assert(b.subrange(0, 8) =~= spec_u64_to_le_bytes(m.offset));
    assert(b[8] == state_code(m.state));
    assert(b.subrange(9, 17) =~= spec_u64_to_le_bytes(m.timestamp));
    assert(b.subrange(17, 33) =~= spec_u128_to_le_bytes(m.id));
    assert(b.subrange(33, 37) =~= spec_u32_to_le_bytes(m.checksum));
    assert(b.subrange(37, 41) =~= spec_u32_to_le_bytes(plen));
    assert(b.subrange(41, 41 + plen) =~= m.payload);
    assert(b.subrange(41 + plen, b.len() as int) =~= m.headers);
    assert(state_of_code(state_code(m.state)) == Some(m.state));
}

impl RetainedMessage {
    /// The message `message` as the log retains it under the given offset
    /// and timestamp: available, with the checksum of its payload.
    pub fn new(offset: u64, timestamp: u64, message: &Message) -> (retained: RetainedMessage)
        ensures
            retained@ == message@.retained(offset, timestamp),
    {
        let checksum = calculate_checksum(bytes_as_slice(&message.payload));
        let headers = match &message.headers {
            Some(h) => Some(h.clone()),
            None => None,
        };
        RetainedMessage {
            id: message.id,
            offset,
            timestamp,
            checksum,
            message_state: MessageState::Available,
            headers,
            payload: message.payload.clone(),
        }
    }

    /// The bytes that the record of this message takes in a batch; `u32::MAX`
    /// where that is more than 32 bits hold.
    pub fn get_size_bytes(&self) -> (size: u32)
        ensures
            size == if self@.record_size() <= u32::MAX {
                self@.record_size()
            } else {
                u32::MAX as int
            },
    {
        let payload_len = bytes_len(&self.payload) as u64;
        let headers_len = match &self.headers {
            Some(h) => bytes_len(h) as u64,
            None => 0u64,
        };
        if payload_len <= u32::MAX as u64 && headers_len <= u32::MAX as u64 {
            let total: u64 = 4 + RECORD_HEADER_SIZE as u64 + payload_len + headers_len;
            if total <= u32::MAX as u64 {
                return total as u32;
            }
        }
        u32::MAX
    }

    /// Adds the record of this message at the end of `bytes`.
    pub fn extend(&self, bytes: &mut BytesMut)
        requires
            RECORD_HEADER_SIZE + self@.payload.len() + self@.headers.len() <= u32::MAX,
        ensures
            buf_seq(*final(bytes)) == buf_seq(*old(bytes)) + encode_record(self@),
    {
        proof {
            lemma_encode_body_len(self@);
        }
        let payload_len = bytes_len(&self.payload) as u32;
        let headers_len = match &self.headers {
            Some(h) => bytes_len(h) as u32,
            None => 0u32,
        };
        let length: u32 = RECORD_HEADER_SIZE + payload_len + headers_len;
        let ghost before = buf_seq(*bytes);
        buf_extend(bytes, u32_to_le_bytes(length).as_slice());
        buf_extend(bytes, u64_to_le_bytes(self.offset).as_slice());
        let mut code: Vec<u8> = Vec::new();
        code.push(self.message_state.as_code());
        buf_extend(bytes, code.as_slice());
        buf_extend(bytes, u64_to_le_bytes(self.timestamp).as_slice());
        buf_extend(bytes, u128_to_le_bytes(self.id).as_slice());
        buf_extend(bytes, u32_to_le_bytes(self.checksum).as_slice());
        buf_extend(bytes, u32_to_le_bytes(payload_len).as_slice());
        buf_extend(bytes, bytes_as_slice(&self.payload));
        match &self.headers {
            Some(h) => {
                buf_extend(bytes, bytes_as_slice(h));
            },
            None => {},
        }
        assert(buf_seq(*bytes) =~= before + encode_record(self@));
    }

    /// The message that the record body `bytes` holds. Its payload and
    /// headers share the storage of `bytes`.
    pub fn try_from_bytes(bytes: Bytes) -> (decoded: Result<RetainedMessage, Error>)
        ensures
            match decoded {
                Ok(m) => decode_body(bytes_seq(bytes)) == Some(m@),
                Err(e) => e == Error::Corruption && decode_body(bytes_seq(bytes)) is None,
            },
    {
        let len = bytes_len(&bytes);
        if len < RECORD_HEADER_SIZE as usize {
            return Err(Error::Corruption);
        }
        let s = bytes_as_slice(&bytes);
        let offset = u64_from_le_bytes(slice_subrange(s, 0, 8));
        let message_state = match MessageState::from_code(s[8]) {
            Ok(state) => state,
            Err(e) => {
                return Err(e);
            },
        };
        let timestamp = u64_from_le_bytes(slice_subrange(s, 9, 17));
        let id = u128_from_le_bytes(slice_subrange(s, 17, 33));
        let checksum = u32_from_le_bytes(slice_subrange(s, 33, 37));
        let payload_len = u32_from_le_bytes(slice_subrange(s, 37, 41));
        if RECORD_HEADER_SIZE as u64 + payload_len as u64 > len as u64 {
            return Err(Error::Corruption);
        }
        let payload_end: usize = RECORD_HEADER_SIZE as usize + payload_len as usize;
        let payload = bytes_slice(&bytes, RECORD_HEADER_SIZE as usize, payload_end);
        if calculate_checksum(bytes_as_slice(&payload)) != checksum {
            return Err(Error::Corruption);
        }
        let headers = if payload_end < len {
            Some(bytes_slice(&bytes, payload_end, len))
        } else {
            None
        };
        proof {
            let b = bytes_seq(bytes);
            assert(b.subrange(payload_end as int, b.len() as int) =~= headers_seq(headers));
        }
        Ok(RetainedMessage { id, offset, timestamp, checksum, message_state, headers, payload })
    }
}

} // verus!
