//! The frame parser: length and CRC validation of one complete frame, header
//! and payload extraction.
//!
//! A frame is big-endian: 4 bytes `total_length`, 4 bytes `headers_length`,
//! 4 bytes prelude CRC32C (over bytes 0..8), the headers segment, the payload
//! segment, and a trailing 4-byte CRC32C over everything before it.

use vstd::prelude::*;
use crate::bytesx::{be32_at, read_be32, vec_range};
use crate::crc::{crc32c_of, crc32c_bytes};
use crate::error::ParseError;
use crate::headers::{
    HVal, HeaderValue, TriplesResult, assoc_of, decode_triples, headers_view, parse_headers,
};
use crate::json::{json_accepts, json_parse};
use crate::strenc::{utf8_lossy, utf8_lossy_string};

verus! {

/// Smallest admissible `total_length`.
pub const MIN_FRAME_LEN: u32 = 16;

/// Largest admissible `total_length`: 16 MiB.
pub const MAX_FRAME_LEN: u32 = 16 * 1024 * 1024;

/// A message payload: the JSON value the payload bytes parse to, or their
/// lossy UTF-8 rendering when they are not JSON.
pub enum PayloadValue {
    Json(serde_json::Value),
    Text(String),
}

/// One decoded message: its header mapping, optional payload, and the length
/// in bytes of the frame it came from.
pub struct ParsedMessage {
    pub headers: Vec<(String, HeaderValue)>,
    pub payload: Option<PayloadValue>,
    pub total_length: u32,
}

/// Mathematical view of a message. The payload is kept as its raw segment
/// bytes (empty means absent); what those bytes parse to is a fixed function
/// of them.
pub ghost struct MsgModel {
    pub headers: Seq<(Seq<char>, HVal)>,
    pub payload: Seq<u8>,
    pub total_length: u32,
}

/// Outcome of parsing one complete frame.
pub ghost enum FrameOutcome {
    /// Declared prelude CRC differs from the computed one.
    PreludeCrc,
    /// Declared whole-message CRC differs from the computed one.
    MessageCrc,
    /// Headers segment overruns the frame, unknown TLV type, or invalid
    /// UTF-8 header name.
    BadFrame,
    /// A validated message.
    Msg(MsgModel),
}

/// What parsing the complete frame `f` yields. `validate` switches the two
/// CRC checks; length and header checks always run.
pub open spec fn frame_outcome(f: Seq<u8>, validate: bool) -> FrameOutcome
    recommends
        MIN_FRAME_LEN <= f.len() <= MAX_FRAME_LEN,
{
    if validate && be32_at(f, 8) != crc32c_of(f.subrange(0, 8)) {
        FrameOutcome::PreludeCrc
    } else if validate && be32_at(f, f.len() - 4) != crc32c_of(f.subrange(0, f.len() - 4)) {
        FrameOutcome::MessageCrc
    } else {
        let h = be32_at(f, 4) as int;
        if 12 + h > f.len() - 4 {
            FrameOutcome::BadFrame
        } else {
            match decode_triples(f.subrange(12, 12 + h)) {
                TriplesResult::Triples(ts) => FrameOutcome::Msg(
                    MsgModel {
                        headers: assoc_of(ts),
                        payload: f.subrange(12 + h, f.len() - 4),
                        total_length: f.len() as u32,
                    },
                ),
                _ => FrameOutcome::BadFrame,
            }
        }
    }
}

/// Whether the executable message agrees with its model: same header mapping,
/// same frame length, and a payload that is exactly what the model's payload
/// bytes dictate (absent when empty, JSON when they parse, lossy text else).
pub open spec fn msg_matches(m: ParsedMessage, mm: MsgModel) -> bool {
    &&& headers_view(m.headers@) == mm.headers
    &&& m.total_length == mm.total_length
    &&& (match m.payload {
        Option::None => mm.payload.len() == 0,
        Option::Some(PayloadValue::Json(_)) => mm.payload.len() > 0 && json_accepts(mm.payload),
        Option::Some(PayloadValue::Text(s)) => mm.payload.len() > 0 && !json_accepts(mm.payload)
            && s@ == utf8_lossy(mm.payload),
    })
}

/// Parses one complete frame, already split off at its declared length.
///
/// Returns the message exactly when `frame_outcome` says so; the error kind
/// identifies which check failed, with the CRC values seen.
pub fn parse_frame(frame: &Vec<u8>, validate: bool) -> (r: Result<ParsedMessage, ParseError>)
    requires
        MIN_FRAME_LEN <= frame@.len() <= MAX_FRAME_LEN,
    ensures
        (match frame_outcome(frame@, validate) {
            FrameOutcome::Msg(mm) => r matches Ok(m) && msg_matches(m, mm),
            FrameOutcome::PreludeCrc => r matches Err(e) && e == (ParseError::PreludeCrcMismatch {
                expected: be32_at(frame@, 8),
                actual: crc32c_of(frame@.subrange(0, 8)),
            }),
            FrameOutcome::MessageCrc => r matches Err(e) && e == (ParseError::MessageCrcMismatch {
                expected: be32_at(frame@, frame@.len() - 4),
                actual: crc32c_of(frame@.subrange(0, frame@.len() - 4)),
            }),
            FrameOutcome::BadFrame => r matches Err(e) && (match e {
                ParseError::InvalidLength(h) => h == be32_at(frame@, 4) && 12 + be32_at(frame@, 4)
                    > frame@.len() - 4,
                ParseError::InvalidHeaderType(t) => 12 + be32_at(frame@, 4) <= frame@.len() - 4
                    && decode_triples(
                    frame@.subrange(12, 12 + be32_at(frame@, 4) as int),
                ) == TriplesResult::BadType(t),
                ParseError::Utf8Error => 12 + be32_at(frame@, 4) <= frame@.len() - 4
                    && decode_triples(
                    frame@.subrange(12, 12 + be32_at(frame@, 4) as int),
                ) == TriplesResult::BadName,
                _ => false,
            }),
        }),
{
    let len: usize = frame.len();
    if validate {
        let prelude = vec_range(frame, 0, 8);
        let prelude_crc_actual = crc32c_bytes(&prelude);
        let prelude_crc_expected = read_be32(frame, 8);
        if prelude_crc_expected != prelude_crc_actual {
            return Err(
                ParseError::PreludeCrcMismatch {
                    expected: prelude_crc_expected,
                    actual: prelude_crc_actual,
                },
            );
        }
        let body = vec_range(frame, 0, len - 4);
        let message_crc_actual = crc32c_bytes(&body);
        let message_crc_expected = read_be32(frame, len - 4);
        if message_crc_expected != message_crc_actual {
            return Err(
                ParseError::MessageCrcMismatch {
                    expected: message_crc_expected,
                    actual: message_crc_actual,
                },
            );
        }
    }
    let headers_length = read_be32(frame, 4);
    if headers_length > MAX_FRAME_LEN || 12 + (headers_length as usize) > len - 4 {
        return Err(ParseError::InvalidLength(headers_length));
    }
    let h: usize = headers_length as usize;
    let headers_segment = vec_range(frame, 12, 12 + h);
    let headers = match parse_headers(&headers_segment) {
        Ok(hs) => hs,
        Err(e) => {
            return Err(e);
        },
    };
    let payload_bytes = vec_range(frame, 12 + h, len - 4);
    let payload: Option<PayloadValue> = if payload_bytes.len() == 0 {
        None
    } else {
        match json_parse(&payload_bytes) {
            Option::Some(v) => Some(PayloadValue::Json(v)),
            Option::None => Some(PayloadValue::Text(utf8_lossy_string(&payload_bytes))),
        }
    };
    Ok(ParsedMessage { headers, payload, total_length: len as u32 })
}

} // verus!
