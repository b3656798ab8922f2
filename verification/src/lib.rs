//! Incremental, fault-tolerant decoder for a length-prefixed, CRC32C-protected
//! binary event-stream framing protocol.
//!
//! Bytes arrive in arbitrarily sized chunks through [`decoder::EventStreamDecoder::feed`];
//! complete, validated frames come back as [`decoder::ParsedMessage`] values.

pub mod bytesx;
pub mod crc;
pub mod decoder;
pub mod error;
pub mod frame;
pub mod headers;
pub mod json;
pub mod laws;
pub mod strenc;
