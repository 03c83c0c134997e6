//! RPC frame headers and the layout of frames.
//!
//! A frame is a header of fixed length, a body and an attachment. The numbers of
//! a header are stored with their lowest byte first.

use vstd::prelude::*;

verus! {

/// The version of the store's RPC contracts that clients are told at the
/// handshake.
pub const MOONCAKE_STORE_VERSION: &'static str = "2.0.0";

pub const MAGIC: u8 = 21;

pub const VERSION: u8 = 0;

pub const STRUCT_PACK_SERIALIZATION: u8 = 0;

pub const REQUEST_HEADER_LEN: usize = 20;

pub const RESPONSE_HEADER_LEN: usize = 16;

/// The longest body that is accepted unless configured otherwise.
pub const DEFAULT_MAX_BODY_LEN: usize = 67_108_864;

/// The longest attachment that is accepted unless configured otherwise.
pub const DEFAULT_MAX_ATTACHMENT_LEN: usize = 268_435_456;

/// Limits applied before allocating buffers for an incoming frame.
#[derive(Clone, Copy, Debug, Eq, PartialEq, Structural)]
pub struct FrameLimits {
    pub max_body_len: usize,
    pub max_attachment_len: usize,
}

impl Default for FrameLimits {
    fn default() -> (limits: Self)
        ensures
            limits == (FrameLimits {
                max_body_len: DEFAULT_MAX_BODY_LEN,
                max_attachment_len: DEFAULT_MAX_ATTACHMENT_LEN,
            }),
    {
        Self {
            max_body_len: DEFAULT_MAX_BODY_LEN,
            max_attachment_len: DEFAULT_MAX_ATTACHMENT_LEN,
        }
    }
}

/// What is wrong with a frame.
#[derive(Clone, Copy, Debug, Eq, PartialEq, Structural)]
pub enum ProtocolError {
    InvalidHeaderLength { expected: usize, actual: usize },
    InvalidMagic(u8),
    UnsupportedVersion(u8),
    UnsupportedSerialization(u8),
    BodyTooLarge { length: u32, limit: usize },
    AttachmentTooLarge { length: u32, limit: usize },
    LengthOverflow,
}

/// Why a frame could not be read or written. `E` is what goes wrong with the
/// transport.
#[derive(Clone, Debug, Eq, PartialEq)]
pub enum FrameError<E> {
    Io(E),
    Protocol(ProtocolError),
}

impl<E> vstd::std_specs::convert::FromSpecImpl<ProtocolError> for FrameError<E> {
    open spec fn obeys_from_spec() -> bool {
        true
    }

    open spec fn from_spec(error: ProtocolError) -> Self {
        FrameError::Protocol(error)
    }
}

impl<E> From<ProtocolError> for FrameError<E> {
    fn from(error: ProtocolError) -> Self {
        Self::Protocol(error)
    }
}

/// The bytes of a number, the lowest first.
pub open spec fn low_first(value: u32) -> Seq<u8> {
    seq![
        (value as int % 256) as u8,
        (value as int / 256 % 256) as u8,
        (value as int / 65536 % 256) as u8,
        (value as int / 16777216 % 256) as u8,
    ]
}

/// The number whose bytes, the lowest first, stand at a place.
pub open spec fn number_at(bytes: Seq<u8>, at: int) -> u32 {
    (bytes[at] + bytes[at + 1] * 256 + bytes[at + 2] * 65536 + bytes[at + 3] * 16777216) as u32
}

fn byte_of(value: u32, place: u32) -> (byte: u8)
    requires
        place == 0 || place == 1 || place == 2 || place == 3,
    ensures
        byte == low_first(value)[place as int],
{
    match place {
        0 => (value % 256) as u8,
        1 => (value / 256 % 256) as u8,
        2 => (value / 65536 % 256) as u8,
        _ => (value / 16777216 % 256) as u8,
    }
}

fn read_number(bytes: &[u8], at: usize) -> (number: u32)
    requires
        at + 4 <= bytes@.len(),
    ensures
        number == number_at(bytes@, at as int),
{
    bytes[at] as u32 + bytes[at + 1] as u32 * 256 + bytes[at + 2] as u32 * 65536 + bytes[at
        + 3] as u32 * 16777216
}

/// A number is read as it was written, and bytes are written as they were read.
pub proof fn law_number_round_trip(value: u32, bytes: Seq<u8>)
    requires
        bytes.len() == 4,
    ensures
        number_at(low_first(value), 0) == value,
        low_first(number_at(bytes, 0)) == bytes,
{
    let v = value as int;
    assert(v % 256 + v / 256 % 256 * 256 + v / 65536 % 256 * 65536 + v / 16777216 % 256 * 16777216
        == v) by {
        assert(v / 65536 == v / 256 / 256);
        assert(v / 16777216 == v / 256 / 256 / 256);
        assert(v / 16777216 < 256);
    }
    let n = number_at(bytes, 0) as int;
    assert(n == bytes[0] + bytes[1] * 256 + bytes[2] * 65536 + bytes[3] * 16777216);
    assert(n % 256 == bytes[0]);
    assert(n / 256 == bytes[1] + bytes[2] * 256 + bytes[3] * 65536);
    assert(n / 65536 == bytes[2] + bytes[3] * 256);
    assert(n / 16777216 == bytes[3]);
    assert(low_first(number_at(bytes, 0)) =~= bytes);
}

/// What is wrong with the first two bytes of a header.
pub open spec fn common_fault(magic: u8, version: u8) -> Option<ProtocolError> {
    if magic != MAGIC {
        Some(ProtocolError::InvalidMagic(magic))
    } else if version > VERSION {
        Some(ProtocolError::UnsupportedVersion(version))
    } else {
        None
    }
}

fn validate_common(magic: u8, version: u8) -> (valid: Result<(), ProtocolError>)
    ensures
        valid == match common_fault(magic, version) {
            Some(fault) => Err::<(), ProtocolError>(fault),
            None => Ok(()),
        },
{
    if magic != MAGIC {
        return Err(ProtocolError::InvalidMagic(magic));
    }
    if version > VERSION {
        return Err(ProtocolError::UnsupportedVersion(version));
    }
    Ok(())
}

/// A request header.
#[derive(Clone, Copy, Debug, Eq, PartialEq, Structural)]
pub struct RequestHeader {
    pub magic: u8,
    pub version: u8,
    pub serialize_type: u8,
    pub msg_type: u8,
    pub sequence: u32,
    pub function_id: u32,
    pub body_len: u32,
    pub attachment_len: u32,
}

impl RequestHeader {
    /// The bytes of the header.
    pub open spec fn bytes(self) -> Seq<u8> {
        seq![self.magic, self.version, self.serialize_type, self.msg_type] + low_first(
            self.sequence,
        ) + low_first(self.function_id) + low_first(self.body_len) + low_first(
            self.attachment_len,
        )
    }

    /// The header that stands in bytes.
    pub open spec fn read(bytes: Seq<u8>) -> RequestHeader {
        RequestHeader {
            magic: bytes[0],
            version: bytes[1],
            serialize_type: bytes[2],
            msg_type: bytes[3],
            sequence: number_at(bytes, 4),
            function_id: number_at(bytes, 8),
            body_len: number_at(bytes, 12),
            attachment_len: number_at(bytes, 16),
        }
    }

    /// What is wrong with bytes that are to be a header.
    pub open spec fn fault(bytes: Seq<u8>) -> Option<ProtocolError> {
        let header = RequestHeader::read(bytes);
        if bytes.len() != REQUEST_HEADER_LEN {
            Some(
                ProtocolError::InvalidHeaderLength {
                    expected: REQUEST_HEADER_LEN,
                    actual: bytes.len() as usize,
                },
            )
        } else if common_fault(header.magic, header.version) is Some {
            common_fault(header.magic, header.version)
        } else if header.serialize_type != STRUCT_PACK_SERIALIZATION {
            Some(ProtocolError::UnsupportedSerialization(header.serialize_type))
        } else {
            None
        }
    }

    /// A header of this protocol.
    pub open spec fn of(sequence: u32, function_id: u32, body_len: u32, attachment_len: u32) -> RequestHeader {
        RequestHeader {
            magic: MAGIC,
            version: VERSION,
            serialize_type: STRUCT_PACK_SERIALIZATION,
            msg_type: 0,
            sequence,
            function_id,
            body_len,
            attachment_len,
        }
    }

    pub fn new(sequence: u32, function_id: u32, body_len: u32, attachment_len: u32) -> (header: Self)
        ensures
            header == RequestHeader::of(sequence, function_id, body_len, attachment_len),
    {
        Self {
            magic: MAGIC,
            version: VERSION,
            serialize_type: STRUCT_PACK_SERIALIZATION,
            msg_type: 0,
            sequence,
            function_id,
            body_len,
            attachment_len,
        }
    }

    pub fn encode(self) -> (bytes: [u8; 20])
        ensures
            bytes@ == self.bytes(),
    {
        let bytes: [u8; 20] = [
            self.magic,
            self.version,
            self.serialize_type,
            self.msg_type,
            byte_of(self.sequence, 0),
            byte_of(self.sequence, 1),
            byte_of(self.sequence, 2),
            byte_of(self.sequence, 3),
            byte_of(self.function_id, 0),
            byte_of(self.function_id, 1),
            byte_of(self.function_id, 2),
            byte_of(self.function_id, 3),
            byte_of(self.body_len, 0),
            byte_of(self.body_len, 1),
            byte_of(self.body_len, 2),
            byte_of(self.body_len, 3),
            byte_of(self.attachment_len, 0),
            byte_of(self.attachment_len, 1),
            byte_of(self.attachment_len, 2),
            byte_of(self.attachment_len, 3),
        ];
        assert(bytes@ =~= self.bytes());
        bytes
    }

    pub fn decode(bytes: &[u8]) -> (header: Result<Self, ProtocolError>)
        ensures
            header == match RequestHeader::fault(bytes@) {
                Some(fault) => Err::<RequestHeader, ProtocolError>(fault),
                None => Ok(RequestHeader::read(bytes@)),
            },
    {
        if bytes.len() != REQUEST_HEADER_LEN {
            return Err(
                ProtocolError::InvalidHeaderLength {
                    expected: REQUEST_HEADER_LEN,
                    actual: bytes.len(),
                },
            );
        }
        let header = Self {
            magic: bytes[0],
            version: bytes[1],
            serialize_type: bytes[2],
            msg_type: bytes[3],
            sequence: read_number(bytes, 4),
            function_id: read_number(bytes, 8),
            body_len: read_number(bytes, 12),
            attachment_len: read_number(bytes, 16),
        };
        if let Err(error) = validate_common(header.magic, header.version) {
            return Err(error);
        }
        if header.serialize_type != STRUCT_PACK_SERIALIZATION {
            return Err(ProtocolError::UnsupportedSerialization(header.serialize_type));
        }
        Ok(header)
    }

    /// How many bytes follow the header, if that is within the limits.
    pub fn payload_len(self, limits: FrameLimits) -> (length: Result<usize, ProtocolError>)
        ensures
            length == payload_result(self.body_len, self.attachment_len, limits),
    {
        validate_lengths(self.body_len, self.attachment_len, limits)
    }
}

/// A response header.
#[derive(Clone, Copy, Debug, Eq, PartialEq, Structural)]
pub struct ResponseHeader {
    pub magic: u8,
    pub version: u8,
    pub error_code: u8,
    pub msg_type: u8,
    pub sequence: u32,
    pub body_len: u32,
    pub attachment_len: u32,
}

impl ResponseHeader {
    /// The bytes of the header.
    pub open spec fn bytes(self) -> Seq<u8> {
        seq![self.magic, self.version, self.error_code, self.msg_type] + low_first(self.sequence)
            + low_first(self.body_len) + low_first(self.attachment_len)
    }

    /// The header that stands in bytes.
    pub open spec fn read(bytes: Seq<u8>) -> ResponseHeader {
        ResponseHeader {
            magic: bytes[0],
            version: bytes[1],
            error_code: bytes[2],
            msg_type: bytes[3],
            sequence: number_at(bytes, 4),
            body_len: number_at(bytes, 8),
            attachment_len: number_at(bytes, 12),
        }
    }

    /// What is wrong with bytes that are to be a header.
    pub open spec fn fault(bytes: Seq<u8>) -> Option<ProtocolError> {
        if bytes.len() != RESPONSE_HEADER_LEN {
            Some(
                ProtocolError::InvalidHeaderLength {
                    expected: RESPONSE_HEADER_LEN,
                    actual: bytes.len() as usize,
                },
            )
        } else {
            common_fault(bytes[0], bytes[1])
        }
    }

    /// A header of this protocol.
    pub open spec fn of(sequence: u32, error_code: u8, body_len: u32, attachment_len: u32) -> ResponseHeader {
        ResponseHeader {
            magic: MAGIC,
            version: VERSION,
            error_code,
            msg_type: 0,
            sequence,
            body_len,
            attachment_len,
        }
    }

    pub fn new(sequence: u32, error_code: u8, body_len: u32, attachment_len: u32) -> (header: Self)
        ensures
            header == ResponseHeader::of(sequence, error_code, body_len, attachment_len),
    {
        Self {
            magic: MAGIC,
            version: VERSION,
            error_code,
            msg_type: 0,
            sequence,
            body_len,
            attachment_len,
        }
    }

    pub fn encode(self) -> (bytes: [u8; 16])
        ensures
            bytes@ == self.bytes(),
    {
        let bytes: [u8; 16] = [
            self.magic,
            self.version,
            self.error_code,
            self.msg_type,
            byte_of(self.sequence, 0),
            byte_of(self.sequence, 1),
            byte_of(self.sequence, 2),
            byte_of(self.sequence, 3),
            byte_of(self.body_len, 0),
            byte_of(self.body_len, 1),
            byte_of(self.body_len, 2),
            byte_of(self.body_len, 3),
            byte_of(self.attachment_len, 0),
            byte_of(self.attachment_len, 1),
            byte_of(self.attachment_len, 2),
            byte_of(self.attachment_len, 3),
        ];
        assert(bytes@ =~= self.bytes());
        bytes
    }

    pub fn decode(bytes: &[u8]) -> (header: Result<Self, ProtocolError>)
        ensures
            header == match ResponseHeader::fault(bytes@) {
                Some(fault) => Err::<ResponseHeader, ProtocolError>(fault),
                None => Ok(ResponseHeader::read(bytes@)),
            },
    {
        if bytes.len() != RESPONSE_HEADER_LEN {
            return Err(
                ProtocolError::InvalidHeaderLength {
                    expected: RESPONSE_HEADER_LEN,
                    actual: bytes.len(),
                },
            );
        }
        let header = Self {
            magic: bytes[0],
            version: bytes[1],
            error_code: bytes[2],
            msg_type: bytes[3],
            sequence: read_number(bytes, 4),
            body_len: read_number(bytes, 8),
            attachment_len: read_number(bytes, 12),
        };
        if let Err(error) = validate_common(header.magic, header.version) {
            return Err(error);
        }
        Ok(header)
    }

    /// How many bytes follow the header, if that is within the limits.
    pub fn payload_len(self, limits: FrameLimits) -> (length: Result<usize, ProtocolError>)
        ensures
            length == payload_result(self.body_len, self.attachment_len, limits),
    {
        validate_lengths(self.body_len, self.attachment_len, limits)
    }
}

/// How many bytes follow a header, if that is within the limits.
pub open spec fn payload_result(body_len: u32, attachment_len: u32, limits: FrameLimits) -> Result<
    usize,
    ProtocolError,
> {
    if body_len > limits.max_body_len {
        Err(ProtocolError::BodyTooLarge { length: body_len, limit: limits.max_body_len })
    } else if attachment_len > limits.max_attachment_len {
        Err(
            ProtocolError::AttachmentTooLarge {
                length: attachment_len,
                limit: limits.max_attachment_len,
            },
        )
    } else if body_len + attachment_len > usize::MAX {
        Err(ProtocolError::LengthOverflow)
    } else {
        Ok((body_len + attachment_len) as usize)
    }
}

fn validate_lengths(body_len: u32, attachment_len: u32, limits: FrameLimits) -> (length: Result<
    usize,
    ProtocolError,
>)
    ensures
        length == payload_result(body_len, attachment_len, limits),
{
    if body_len as usize > limits.max_body_len {
        return Err(
            ProtocolError::BodyTooLarge { length: body_len, limit: limits.max_body_len },
        );
    }
    if attachment_len as usize > limits.max_attachment_len {
        return Err(
            ProtocolError::AttachmentTooLarge {
                length: attachment_len,
                limit: limits.max_attachment_len,
            },
        );
    }
    match (body_len as usize).checked_add(attachment_len as usize) {
        Some(length) => Ok(length),
        None => Err(ProtocolError::LengthOverflow),
    }
}

/// A length as a header states it.
fn stated_length(length: usize) -> (stated: Result<u32, ProtocolError>)
    ensures
        stated == if length > u32::MAX {
            Err::<u32, ProtocolError>(ProtocolError::LengthOverflow)
        } else {
            Ok(length as u32)
        },
{
    if length as u64 > u32::MAX as u64 {
        return Err(ProtocolError::LengthOverflow);
    }
    Ok(length as u32)
}

/// The first bytes of a payload, and the rest.
fn split_payload(payload: Vec<u8>, at: usize) -> (parts: (Vec<u8>, Vec<u8>))
    requires
        at <= payload@.len(),
    ensures
        parts.0@ == payload@.take(at as int),
        parts.1@ == payload@.skip(at as int),
{
    let mut body = payload;
    let attachment = body.split_off(at);
    assert(body@ =~= payload@.take(at as int));
    assert(attachment@ =~= payload@.skip(at as int));
    (body, attachment)
}

/// Three parts one after the other.
fn joined_parts(first: &[u8], second: &[u8], third: &[u8]) -> (bytes: Vec<u8>)
    ensures
        bytes@ == first@ + second@ + third@,
{
    let mut bytes: Vec<u8> = Vec::new();
    bytes.extend_from_slice(first);
    bytes.extend_from_slice(second);
    bytes.extend_from_slice(third);
    assert(bytes@ =~= first@ + second@ + third@);
    bytes
}

/// A request.
#[derive(Clone, Debug, Eq, PartialEq)]
pub struct RequestFrame {
    pub header: RequestHeader,
    pub body: Vec<u8>,
    pub attachment: Vec<u8>,
}

impl RequestFrame {
    /// Whether the header states the lengths that the parts have.
    pub open spec fn wf(self) -> bool {
        self.header.body_len == self.body@.len() && self.header.attachment_len
            == self.attachment@.len()
    }

    /// The bytes of the frame.
    pub open spec fn bytes(self) -> Seq<u8> {
        self.header.bytes() + self.body@ + self.attachment@
    }

    pub fn new(sequence: u32, function_id: u32, body: Vec<u8>, attachment: Vec<u8>) -> (frame: Result<
        Self,
        ProtocolError,
    >)
        ensures
            if body@.len() > u32::MAX || attachment@.len() > u32::MAX {
                frame == Err::<Self, ProtocolError>(ProtocolError::LengthOverflow)
            } else {
                frame matches Ok(made) && made.wf() && made.body == body && made.attachment
                    == attachment && made.header == RequestHeader::of(
                    sequence,
                    function_id,
                    body@.len() as u32,
                    attachment@.len() as u32,
                )
            },
    {
        let body_len: u32 = match stated_length(body.len()) {
            Ok(length) => length,
            Err(error) => return Err(error),
        };
        let attachment_len: u32 = match stated_length(attachment.len()) {
            Ok(length) => length,
            Err(error) => return Err(error),
        };
        Ok(
            Self {
                header: RequestHeader::new(sequence, function_id, body_len, attachment_len),
                body,
                attachment,
            },
        )
    }

    /// The frame of a header and what follows it.
    pub fn from_payload(header: RequestHeader, payload: Vec<u8>) -> (frame: Self)
        requires
            payload@.len() == header.body_len + header.attachment_len,
        ensures
            frame.wf(),
            frame.header == header,
            frame.body@ == payload@.take(header.body_len as int),
            frame.attachment@ == payload@.skip(header.body_len as int),
    {
        let (body, attachment) = split_payload(payload, header.body_len as usize);
        Self { header, body, attachment }
    }

    /// The frame as it is sent.
    pub fn to_bytes(&self) -> (bytes: Vec<u8>)
        ensures
            bytes@ == self.bytes(),
    {
        let header = self.header.encode();
        joined_parts(&header, self.body.as_slice(), self.attachment.as_slice())
    }
}

/// A response.
#[derive(Clone, Debug, Eq, PartialEq)]
pub struct ResponseFrame {
    pub header: ResponseHeader,
    pub body: Vec<u8>,
    pub attachment: Vec<u8>,
}

impl ResponseFrame {
    /// Whether the header states the lengths that the parts have.
    pub open spec fn wf(self) -> bool {
        self.header.body_len == self.body@.len() && self.header.attachment_len
            == self.attachment@.len()
    }

    /// The bytes of the frame.
    pub open spec fn bytes(self) -> Seq<u8> {
        self.header.bytes() + self.body@ + self.attachment@
    }

    pub fn new(sequence: u32, error_code: u8, body: Vec<u8>, attachment: Vec<u8>) -> (frame: Result<
        Self,
        ProtocolError,
    >)
        ensures
            if body@.len() > u32::MAX || attachment@.len() > u32::MAX {
                frame == Err::<Self, ProtocolError>(ProtocolError::LengthOverflow)
            } else {
                frame matches Ok(made) && made.wf() && made.body == body && made.attachment
                    == attachment && made.header == ResponseHeader::of(
                    sequence,
                    error_code,
                    body@.len() as u32,
                    attachment@.len() as u32,
                )
            },
    {
        let body_len: u32 = match stated_length(body.len()) {
            Ok(length) => length,
            Err(error) => return Err(error),
        };
        let attachment_len: u32 = match stated_length(attachment.len()) {
            Ok(length) => length,
            Err(error) => return Err(error),
        };
        Ok(
            Self {
                header: ResponseHeader::new(sequence, error_code, body_len, attachment_len),
                body,
                attachment,
            },
        )
    }

    /// The frame of a header and what follows it.
    pub fn from_payload(header: ResponseHeader, payload: Vec<u8>) -> (frame: Self)
        requires
            payload@.len() == header.body_len + header.attachment_len,
        ensures
            frame.wf(),
            frame.header == header,
            frame.body@ == payload@.take(header.body_len as int),
            frame.attachment@ == payload@.skip(header.body_len as int),
    {
        let (body, attachment) = split_payload(payload, header.body_len as usize);
        Self { header, body, attachment }
    }

    /// The frame as it is sent.
    pub fn to_bytes(&self) -> (bytes: Vec<u8>)
        ensures
            bytes@ == self.bytes(),
    {
        let header = self.header.encode();
        joined_parts(&header, self.body.as_slice(), self.attachment.as_slice())
    }
}

/// A request header of this protocol is read as it was written, and accepted
/// bytes are written as they were read.
pub proof fn law_request_header_round_trip(header: RequestHeader, bytes: Seq<u8>)
    requires
        header.magic == MAGIC,
        header.version == VERSION,
        header.serialize_type == STRUCT_PACK_SERIALIZATION,
        bytes.len() == REQUEST_HEADER_LEN,
    ensures
        header.bytes().len() == REQUEST_HEADER_LEN,
        RequestHeader::fault(header.bytes()) is None,
        RequestHeader::read(header.bytes()) == header,
        RequestHeader::read(bytes).bytes() == bytes,
{
    law_number_round_trip(header.sequence, bytes.subrange(4, 8));
    law_number_round_trip(header.function_id, bytes.subrange(8, 12));
    law_number_round_trip(header.body_len, bytes.subrange(12, 16));
    law_number_round_trip(header.attachment_len, bytes.subrange(16, 20));
    let encoded = header.bytes();
    assert(number_at(encoded, 4) == number_at(low_first(header.sequence), 0));
    assert(number_at(encoded, 8) == number_at(low_first(header.function_id), 0));
    assert(number_at(encoded, 12) == number_at(low_first(header.body_len), 0));
    assert(number_at(encoded, 16) == number_at(low_first(header.attachment_len), 0));
    assert(number_at(bytes, 4) == number_at(bytes.subrange(4, 8), 0));
    assert(number_at(bytes, 8) == number_at(bytes.subrange(8, 12), 0));
    assert(number_at(bytes, 12) == number_at(bytes.subrange(12, 16), 0));
    assert(number_at(bytes, 16) == number_at(bytes.subrange(16, 20), 0));
    let read = RequestHeader::read(bytes);
    assert(read.bytes() =~= seq![bytes[0], bytes[1], bytes[2], bytes[3]] + bytes.subrange(4, 8)
        + bytes.subrange(8, 12) + bytes.subrange(12, 16) + bytes.subrange(16, 20));
    assert(read.bytes() =~= bytes);
}

/// A response header of this protocol is read as it was written, and accepted
/// bytes are written as they were read.
pub proof fn law_response_header_round_trip(header: ResponseHeader, bytes: Seq<u8>)
    requires
        header.magic == MAGIC,
        header.version == VERSION,
        bytes.len() == RESPONSE_HEADER_LEN,
    ensures
        header.bytes().len() == RESPONSE_HEADER_LEN,
        ResponseHeader::fault(header.bytes()) is None,
        ResponseHeader::read(header.bytes()) == header,
        ResponseHeader::read(bytes).bytes() == bytes,
{
    law_number_round_trip(header.sequence, bytes.subrange(4, 8));
    law_number_round_trip(header.body_len, bytes.subrange(8, 12));
    law_number_round_trip(header.attachment_len, bytes.subrange(12, 16));
    let encoded = header.bytes();
    assert(number_at(encoded, 4) == number_at(low_first(header.sequence), 0));
    assert(number_at(encoded, 8) == number_at(low_first(header.body_len), 0));
    assert(number_at(encoded, 12) == number_at(low_first(header.attachment_len), 0));
    assert(number_at(bytes, 4) == number_at(bytes.subrange(4, 8), 0));
    assert(number_at(bytes, 8) == number_at(bytes.subrange(8, 12), 0));
    assert(number_at(bytes, 12) == number_at(bytes.subrange(12, 16), 0));
    let read = ResponseHeader::read(bytes);
    assert(read.bytes() =~= seq![bytes[0], bytes[1], bytes[2], bytes[3]] + bytes.subrange(4, 8)
        + bytes.subrange(8, 12) + bytes.subrange(12, 16));
    assert(read.bytes() =~= bytes);
}

/// A request frame is read as it was sent: its first bytes are its header, and
/// what follows splits into its body and its attachment.
pub proof fn law_request_frame_round_trip(frame: RequestFrame)
    requires
        frame.wf(),
        frame.header.magic == MAGIC,
        frame.header.version == VERSION,
        frame.header.serialize_type == STRUCT_PACK_SERIALIZATION,
    ensures
        ({
            let head = frame.bytes().take(REQUEST_HEADER_LEN as int);
            let payload = frame.bytes().skip(REQUEST_HEADER_LEN as int);
            &&& RequestHeader::fault(head) is None
            &&& RequestHeader::read(head) == frame.header
            &&& payload.len() == frame.header.body_len + frame.header.attachment_len
            &&& payload.take(frame.header.body_len as int) == frame.body@
            &&& payload.skip(frame.header.body_len as int) == frame.attachment@
        }),
{
    law_request_header_round_trip(frame.header, frame.header.bytes());
    let head = frame.bytes().take(REQUEST_HEADER_LEN as int);
    let payload = frame.bytes().skip(REQUEST_HEADER_LEN as int);
    assert(head =~= frame.header.bytes());
    assert(payload.take(frame.header.body_len as int) =~= frame.body@);
    assert(payload.skip(frame.header.body_len as int) =~= frame.attachment@);
}

/// A response frame is read as it was sent: its first bytes are its header, and
/// what follows splits into its body and its attachment.
pub proof fn law_response_frame_round_trip(frame: ResponseFrame)
    requires
        frame.wf(),
        frame.header.magic == MAGIC,
        frame.header.version == VERSION,
    ensures
        ({
            let head = frame.bytes().take(RESPONSE_HEADER_LEN as int);
            let payload = frame.bytes().skip(RESPONSE_HEADER_LEN as int);
            &&& ResponseHeader::fault(head) is None
            &&& ResponseHeader::read(head) == frame.header
            &&& payload.len() == frame.header.body_len + frame.header.attachment_len
            &&& payload.take(frame.header.body_len as int) == frame.body@
            &&& payload.skip(frame.header.body_len as int) == frame.attachment@
        }),
{
    law_response_header_round_trip(frame.header, frame.header.bytes());
    let head = frame.bytes().take(RESPONSE_HEADER_LEN as int);
    let payload = frame.bytes().skip(RESPONSE_HEADER_LEN as int);
    assert(head =~= frame.header.bytes());
    assert(payload.take(frame.header.body_len as int) =~= frame.body@);
    assert(payload.skip(frame.header.body_len as int) =~= frame.attachment@);
}

/// Whether four bytes stand for a number, the lowest first.
pub open spec fn is_number(bytes: Seq<u8>, at: int, value: u32) -> bool {
    bytes[at] + 256 * bytes[at + 1] + 65_536 * bytes[at + 2] + 16_777_216 * bytes[at + 3] == value
}

proof fn lemma_number_at(bytes: Seq<u8>, at: int, value: u32)
    requires
        0 <= at,
        at + 4 <= bytes.len(),
        bytes.subrange(at, at + 4) == low_first(value),
    ensures
        is_number(bytes, at, value),
{
    law_number_round_trip(value, low_first(value));
    let part = bytes.subrange(at, at + 4);
    assert(part[0] == bytes[at] && part[1] == bytes[at + 1] && part[2] == bytes[at + 2] && part[3]
        == bytes[at + 3]);
    assert(number_at(part, 0) == value);
}

/// Where the fields of a request header stand: four single bytes, then four numbers,
/// each with its lowest byte first.
pub proof fn law_request_header_layout(header: RequestHeader)
    ensures
        ({
            let bytes = header.bytes();
            &&& bytes.len() == 20
            &&& bytes[0] == header.magic && bytes[1] == header.version && bytes[2]
                == header.serialize_type && bytes[3] == header.msg_type
            &&& is_number(bytes, 4, header.sequence)
            &&& is_number(bytes, 8, header.function_id)
            &&& is_number(bytes, 12, header.body_len)
            &&& is_number(bytes, 16, header.attachment_len)
        }),
{
    let bytes = header.bytes();
    assert(bytes.subrange(4, 8) =~= low_first(header.sequence));
    assert(bytes.subrange(8, 12) =~= low_first(header.function_id));
    assert(bytes.subrange(12, 16) =~= low_first(header.body_len));
    assert(bytes.subrange(16, 20) =~= low_first(header.attachment_len));
    lemma_number_at(bytes, 4, header.sequence);
    lemma_number_at(bytes, 8, header.function_id);
    lemma_number_at(bytes, 12, header.body_len);
    lemma_number_at(bytes, 16, header.attachment_len);
}

/// Where the fields of a response header stand: four single bytes, then three numbers,
/// each with its lowest byte first.
pub proof fn law_response_header_layout(header: ResponseHeader)
    ensures
        ({
            let bytes = header.bytes();
            &&& bytes.len() == 16
            &&& bytes[0] == header.magic && bytes[1] == header.version && bytes[2]
                == header.error_code && bytes[3] == header.msg_type
            &&& is_number(bytes, 4, header.sequence)
            &&& is_number(bytes, 8, header.body_len)
            &&& is_number(bytes, 12, header.attachment_len)
        }),
{
    let bytes = header.bytes();
    assert(bytes.subrange(4, 8) =~= low_first(header.sequence));
    assert(bytes.subrange(8, 12) =~= low_first(header.body_len));
    assert(bytes.subrange(12, 16) =~= low_first(header.attachment_len));
    lemma_number_at(bytes, 4, header.sequence);
    lemma_number_at(bytes, 8, header.body_len);
    lemma_number_at(bytes, 12, header.attachment_len);
}

/// Headers are accepted that are of the right length, begin with the protocol's own
/// byte and are of no later version; requests, moreover, only in its serialisation.
pub proof fn law_headers_that_are_accepted(bytes: Seq<u8>)
    ensures
        RequestHeader::fault(bytes) is None <==> bytes.len() == 20 && bytes[0] == 21 && bytes[1]
            == 0 && bytes[2] == 0,
        ResponseHeader::fault(bytes) is None <==> bytes.len() == 16 && bytes[0] == 21 && bytes[1]
            == 0,
        bytes.len() == 20 && bytes[0] != 21 ==> RequestHeader::fault(bytes) == Some(
            ProtocolError::InvalidMagic(bytes[0]),
        ),
        bytes.len() == 20 && bytes[0] == 21 && bytes[1] > 0 ==> RequestHeader::fault(bytes) == Some(
            ProtocolError::UnsupportedVersion(bytes[1]),
        ),
        bytes.len() == 20 && bytes[0] == 21 && bytes[1] == 0 && bytes[2] != 0
            ==> RequestHeader::fault(bytes) == Some(
            ProtocolError::UnsupportedSerialization(bytes[2]),
        ),
{
}

/// A payload is read only within both limits, and is as long as body and attachment
/// together; a body that is too long is reported first.
pub proof fn law_payload_limits(body_len: u32, attachment_len: u32, limits: FrameLimits)
    ensures
        ({
            let result = payload_result(body_len, attachment_len, limits);
            &&& result is Ok ==> result->Ok_0 == body_len + attachment_len && body_len
                <= limits.max_body_len && attachment_len <= limits.max_attachment_len
            &&& body_len <= limits.max_body_len && attachment_len <= limits.max_attachment_len
                && body_len + attachment_len <= usize::MAX ==> result is Ok
            &&& body_len > limits.max_body_len ==> result == Err::<usize, ProtocolError>(
                ProtocolError::BodyTooLarge { length: body_len, limit: limits.max_body_len },
            )
            &&& body_len <= limits.max_body_len && attachment_len > limits.max_attachment_len
                ==> result == Err::<usize, ProtocolError>(
                ProtocolError::AttachmentTooLarge {
                    length: attachment_len,
                    limit: limits.max_attachment_len,
                },
            )
        }),
{
}

} // verus!
