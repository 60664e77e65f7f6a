//! The framed messages that a server and its clients exchange, and the
//! limit on how fast a client may send them.
//!
//! A frame is laid out as
//! `magic_u32 · version_u8 · type_u8 · payload_len_u32 · payload · crc_u32`,
//! little-endian; the checksum covers everything before it.

use vstd::prelude::*;
use vstd::bytes::{spec_u32_to_le_bytes, lemma_auto_spec_u32_to_from_le_bytes};
use vstd::slice::slice_subrange;
use crate::codec::{append, copy_range, get_u32, put_u32, u32_at};
use crate::error::{VeloError, VeloResult};

verus! {

/// The first four bytes of every frame, read as a little-endian integer.
pub const MAGIC: u32 = 0x56454C4F;

/// The protocol version that this library speaks.
pub const VERSION: u8 = 0x01;

/// The bytes of a frame that are not payload.
pub const FRAME_OVERHEAD: usize = 14;

/// The CRC-32 (IEEE) checksum of `data`.
pub uninterp spec fn crc32_ieee(data: Seq<u8>) -> u32;

/// Computes the CRC-32 checksum of `data` with `crc32fast::hash`. The
/// checksum is taken on trust to be a function of the bytes alone.
#[verifier::external_body]
fn crc32(data: &[u8]) -> (sum: u32)
    ensures
        sum == crc32_ieee(data@),
{
    crc32fast::hash(data)
}

/// The kinds of message.
#[derive(Debug, Clone, Copy, PartialEq, Eq, Structural)]
pub enum MessageType {
    Hello,
    ServerInfo,
    AuthRequest,
    AuthResponse,
    Disconnect,
    Command,
    Response,
    Error,
    Ping,
    Pong,
    Stats,
}

impl MessageType {
    /// The byte that stands for the kind in a frame.
    pub open spec fn spec_code(self) -> u8 {
        match self {
            MessageType::Hello => 0x01,
            MessageType::ServerInfo => 0x02,
            MessageType::AuthRequest => 0x03,
            MessageType::AuthResponse => 0x04,
            MessageType::Disconnect => 0x05,
            MessageType::Command => 0x10,
            MessageType::Response => 0x11,
            MessageType::Error => 0x12,
            MessageType::Ping => 0x20,
            MessageType::Pong => 0x21,
            MessageType::Stats => 0x22,
        }
    }

    /// The kind that a byte stands for; a byte that stands for none reads as
    /// `Error`.
    pub open spec fn of_code(value: u8) -> MessageType {
        if value == 0x01 {
            MessageType::Hello
        } else if value == 0x02 {
            MessageType::ServerInfo
        } else if value == 0x03 {
            MessageType::AuthRequest
        } else if value == 0x04 {
            MessageType::AuthResponse
        } else if value == 0x05 {
            MessageType::Disconnect
        } else if value == 0x10 {
            MessageType::Command
        } else if value == 0x11 {
            MessageType::Response
        } else if value == 0x20 {
            MessageType::Ping
        } else if value == 0x21 {
            MessageType::Pong
        } else if value == 0x22 {
            MessageType::Stats
        } else {
            MessageType::Error
        }
    }

    /// The byte that stands for the kind in a frame.
    pub fn code(self) -> (value: u8)
        ensures
            value == self.spec_code(),
            MessageType::of_code(value) == self,
    {
        match self {
            MessageType::Hello => 0x01,
            MessageType::ServerInfo => 0x02,
            MessageType::AuthRequest => 0x03,
            MessageType::AuthResponse => 0x04,
            MessageType::Disconnect => 0x05,
            MessageType::Command => 0x10,
            MessageType::Response => 0x11,
            MessageType::Error => 0x12,
            MessageType::Ping => 0x20,
            MessageType::Pong => 0x21,
            MessageType::Stats => 0x22,
        }
    }
}

impl From<u8> for MessageType {
    fn from(value: u8) -> (kind: Self) {
        match value {
            0x01 => MessageType::Hello,
            0x02 => MessageType::ServerInfo,
            0x03 => MessageType::AuthRequest,
            0x04 => MessageType::AuthResponse,
            0x05 => MessageType::Disconnect,
            0x10 => MessageType::Command,
            0x11 => MessageType::Response,
            0x12 => MessageType::Error,
            0x20 => MessageType::Ping,
            0x21 => MessageType::Pong,
            0x22 => MessageType::Stats,
            _ => MessageType::Error,
        }
    }
}

impl vstd::std_specs::convert::FromSpecImpl<u8> for MessageType {
    open spec fn obeys_from_spec() -> bool {
        true
    }

    open spec fn from_spec(value: u8) -> Self {
        MessageType::of_code(value)
    }
}

/// A message: its kind and its payload.
#[derive(Debug)]
pub struct VelocityMessage {
    pub msg_type: MessageType,
    pub payload: Vec<u8>,
}

/// The bytes of a frame before its checksum.
pub open spec fn frame_body(msg_type: MessageType, payload: Seq<u8>) -> Seq<u8> {
    spec_u32_to_le_bytes(MAGIC) + seq![VERSION, msg_type.spec_code()] + spec_u32_to_le_bytes(
        payload.len() as u32,
    ) + payload
}

/// The bytes of a frame.
pub open spec fn frame_bytes(msg_type: MessageType, payload: Seq<u8>) -> Seq<u8> {
    frame_body(msg_type, payload) + spec_u32_to_le_bytes(
        crc32_ieee(frame_body(msg_type, payload)),
    )
}

/// Why a stretch of bytes is not a frame, if it is none.
pub enum FrameFault {
    /// Fewer bytes than a frame without payload has.
    TooShort,
    /// The first four bytes are not the magic number.
    BadMagic,
    /// The version is not the one that this library speaks.
    BadVersion,
    /// Fewer bytes than the payload length asks for.
    Incomplete,
    /// The checksum is not that of the bytes before it.
    BadChecksum,
}

/// The first fault of the frame's header, in the order in which a frame is
/// read: its length, its magic number, its version, and whether the bytes
/// that the payload length asks for are there.
pub open spec fn header_fault(data: Seq<u8>) -> Option<FrameFault> {
    if data.len() < FRAME_OVERHEAD {
        Some(FrameFault::TooShort)
    } else if u32_at(data, 0) != MAGIC {
        Some(FrameFault::BadMagic)
    } else if data[4] != VERSION {
        Some(FrameFault::BadVersion)
    } else if data.len() < FRAME_OVERHEAD + u32_at(data, 6) {
        Some(FrameFault::Incomplete)
    } else {
        None
    }
}

/// The bytes of `data` that its checksum covers: the header and the payload.
pub open spec fn covered(data: Seq<u8>) -> Seq<u8> {
    data.subrange(0, 10 + u32_at(data, 6))
}

/// The first fault that reading `data` as a frame meets, where `sum` is the
/// checksum of the bytes that the frame's checksum covers.
pub open spec fn frame_fault_with(data: Seq<u8>, sum: u32) -> Option<FrameFault> {
    if header_fault(data) is Some {
        header_fault(data)
    } else if u32_at(data, 10 + u32_at(data, 6)) != sum {
        Some(FrameFault::BadChecksum)
    } else {
        None
    }
}

/// The first fault that reading `data` as a frame meets, in the order in
/// which a frame is read.
pub open spec fn frame_fault(data: Seq<u8>) -> Option<FrameFault> {
    frame_fault_with(data, crc32_ieee(covered(data)))
}

impl VelocityMessage {
    /// A message of the given kind with the given payload.
    pub fn new(msg_type: MessageType, payload: Vec<u8>) -> (message: Self)
        ensures
            message.msg_type == msg_type,
            message.payload == payload,
    {
        VelocityMessage { msg_type, payload }
    }

    /// The bytes of the message's frame before its checksum.
    pub fn encode_body(&self) -> (body: Vec<u8>)
        requires
            self.payload@.len() <= u32::MAX,
        ensures
            body@ == frame_body(self.msg_type, self.payload@),
            body@.len() == 10 + self.payload@.len(),
    {
        proof {
            lemma_auto_spec_u32_to_from_le_bytes();
        }
        let mut buffer: Vec<u8> = Vec::new();
        put_u32(&mut buffer, MAGIC);
        buffer.push(VERSION);
        buffer.push(self.msg_type.code());
        put_u32(&mut buffer, self.payload.len() as u32);
        append(&mut buffer, self.payload.as_slice());
        assert(buffer@ =~= frame_body(self.msg_type, self.payload@));
        buffer
    }

    /// Ends a frame: puts the checksum `sum` behind the bytes that it covers.
    pub fn seal(body: Vec<u8>, sum: u32) -> (frame: Vec<u8>)
        ensures
            frame@ == body@ + spec_u32_to_le_bytes(sum),
            frame@.len() == body@.len() + 4,
    {
        let mut frame = body;
        put_u32(&mut frame, sum);
        frame
    }

    /// The frame of the message.
    pub fn encode(&self) -> (frame: Vec<u8>)
        requires
            self.payload@.len() <= u32::MAX,
        ensures
            frame@ == frame_bytes(self.msg_type, self.payload@),
            frame@.len() == FRAME_OVERHEAD + self.payload@.len(),
    {
        let body = self.encode_body();
        let sum = crc32(body.as_slice());
        Self::seal(body, sum)
    }

    /// Reads the header of a frame and gives the length of its payload. Every
    /// fault is reported as an invalid operation.
    pub fn check_header(data: &[u8]) -> (result: VeloResult<usize>)
        ensures
            match result {
                Ok(payload_len) => {
                    &&& header_fault(data@) is None
                    &&& payload_len == u32_at(data@, 6)
                    &&& FRAME_OVERHEAD + payload_len <= data@.len()
                },
                Err(e) => {
                    &&& header_fault(data@) is Some
                    &&& e is InvalidOperation
                    &&& e.spec_detail()@ == fault_text(header_fault(data@)->Some_0)
                },
            },
    {
        if data.len() < FRAME_OVERHEAD {
            return Err(VeloError::InvalidOperation("Message too short".to_string()));
        }
        let magic = get_u32(data, 0);
        if magic != MAGIC {
            return Err(VeloError::InvalidOperation("Invalid magic".to_string()));
        }
        let version = data[4];
        if version != VERSION {
            return Err(VeloError::InvalidOperation("Unsupported version".to_string()));
        }
        let payload_len = get_u32(data, 6) as usize;
        if data.len() - FRAME_OVERHEAD < payload_len {
            return Err(VeloError::InvalidOperation("Incomplete message".to_string()));
        }
        Ok(payload_len)
    }

    /// Reads a frame from the front of `data`, given the checksum `sum` of
    /// the bytes that the frame's checksum covers. A stored checksum that
    /// differs from `sum` is reported as corrupted data, every other fault
    /// as an invalid operation.
    pub fn decode_checked(data: &[u8], sum: u32) -> (result: VeloResult<Self>)
        ensures
            match result {
                Ok(message) => {
                    &&& frame_fault_with(data@, sum) is None
                    &&& message.msg_type == MessageType::of_code(data@[5])
                    &&& message.payload@ == data@.subrange(10, 10 + u32_at(data@, 6))
                },
                Err(e) => {
                    &&& frame_fault_with(data@, sum) is Some
                    &&& e is CorruptedData <==> frame_fault_with(data@, sum) == Some(
                        FrameFault::BadChecksum,
                    )
                    &&& e is CorruptedData || e is InvalidOperation
                    &&& e.spec_detail()@ == fault_text(frame_fault_with(data@, sum)->Some_0)
                },
            },
    {
        let payload_len = match Self::check_header(data) {
            Ok(n) => n,
            Err(e) => {
                return Err(e);
            },
        };
        let size = data.len();
        assert(payload_len + FRAME_OVERHEAD <= size);
        let checksum = get_u32(data, 10 + payload_len);
        if sum != checksum {
            return Err(VeloError::CorruptedData("Invalid checksum".to_string()));
        }
        let msg_type = MessageType::from(data[5]);
        let payload = copy_range(data, 10, 10 + payload_len);
        Ok(VelocityMessage { msg_type, payload })
    }

    /// Reads a frame from the front of `data`; bytes behind the frame are
    /// ignored. A damaged checksum is reported as corrupted data, every
    /// other fault as an invalid operation.
    pub fn decode(data: &[u8]) -> (result: VeloResult<Self>)
        ensures
            match result {
                Ok(message) => {
                    &&& frame_fault(data@) is None
                    &&& message.msg_type == MessageType::of_code(data@[5])
                    &&& message.payload@ == data@.subrange(10, 10 + u32_at(data@, 6))
                },
                Err(e) => {
                    &&& frame_fault(data@) is Some
                    &&& e is CorruptedData <==> frame_fault(data@) == Some(FrameFault::BadChecksum)
                    &&& e is CorruptedData || e is InvalidOperation
                    &&& e.spec_detail()@ == fault_text(frame_fault(data@)->Some_0)
                },
            },
    {
        let payload_len = match Self::check_header(data) {
            Ok(n) => n,
            Err(e) => {
                return Err(e);
            },
        };
        let size = data.len();
        assert(payload_len + FRAME_OVERHEAD <= size);
        let sum = crc32(slice_subrange(data, 0, 10 + payload_len));
        Self::decode_checked(data, sum)
    }
}

/// The text of the error that reports a fault.
pub open spec fn fault_text(fault: FrameFault) -> Seq<char> {
    match fault {
        FrameFault::TooShort => "Message too short"@,
        FrameFault::BadMagic => "Invalid magic"@,
        FrameFault::BadVersion => "Unsupported version"@,
        FrameFault::Incomplete => "Incomplete message"@,
        FrameFault::BadChecksum => "Invalid checksum"@,
    }
}

/// Round trip: the frame of a message reads back as that message.
pub proof fn lemma_frame_round_trip(msg_type: MessageType, payload: Seq<u8>)
    requires
        payload.len() <= u32::MAX,
    ensures
        frame_fault(frame_bytes(msg_type, payload)) is None,
        MessageType::of_code(frame_bytes(msg_type, payload)[5]) == msg_type,
        frame_bytes(msg_type, payload).subrange(
            10,
            10 + u32_at(frame_bytes(msg_type, payload), 6),
        ) == payload,
{
    lemma_auto_spec_u32_to_from_le_bytes();
    let body = frame_body(msg_type, payload);
    let d = frame_bytes(msg_type, payload);
    let n = payload.len() as int;
    assert(d.subrange(0, 4) =~= spec_u32_to_le_bytes(MAGIC));
    assert(d[4] == VERSION);
    assert(d[5] == msg_type.spec_code());
    assert(d.subrange(6, 10) =~= spec_u32_to_le_bytes(payload.len() as u32));
    assert(d.subrange(10, 10 + n) =~= payload);
    assert(d.subrange(0, 10 + n) =~= body);
    assert(d.subrange(10 + n, 14 + n) =~= spec_u32_to_le_bytes(crc32_ieee(body)));
}

/// A limit on the commands of a client: so many per second.
#[derive(Debug, Clone, Copy)]
pub struct RateLimiter {
    max_per_second: u32,
    tokens: u32,
}

impl RateLimiter {
    /// The commands allowed per second.
    pub closed spec fn limit(&self) -> u32 {
        self.max_per_second
    }

    /// The commands still allowed in the running second.
    pub closed spec fn left(&self) -> u32 {
        self.tokens
    }

    /// A limiter with a full allowance.
    pub fn new(max_per_second: u32) -> (limiter: Self)
        ensures
            limiter.limit() == max_per_second,
            limiter.left() == max_per_second,
    {
        RateLimiter { max_per_second, tokens: max_per_second }
    }

    /// Asks for leave to run one command; `elapsed_ms` is the time since the
    /// allowance was last refilled. After a second the allowance is
    /// refilled, and the caller starts its clock anew. Returns whether leave
    /// is given and whether the allowance was refilled.
    pub fn try_acquire(&mut self, elapsed_ms: u64) -> (outcome: (bool, bool))
        ensures
            final(self).limit() == old(self).limit(),
            outcome.1 == (elapsed_ms >= 1000),
            outcome.0 == (if outcome.1 {
                old(self).limit()
            } else {
                old(self).left()
            } > 0),
            final(self).left() == if outcome.1 {
                old(self).limit()
            } else {
                old(self).left()
            } - if outcome.0 {
                1int
            } else {
                0int
            },
    {
        let refilled = elapsed_ms >= 1000;
        if refilled {
            self.tokens = self.max_per_second;
        }
        if self.tokens > 0 {
            self.tokens = self.tokens - 1;
            (true, refilled)
        } else {
            (false, refilled)
        }
    }
}

} // verus!
