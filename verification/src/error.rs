//! Internal error taxonomy of the frame parser. Errors never cross the
//! `feed` boundary; they only drive the decoder's state machine and counters.

use vstd::prelude::*;

verus! {

#[derive(Debug, Clone, Copy, PartialEq, Eq, Structural)]
pub enum ParseError {
    /// `total_length` outside `[16, 16 MiB]`, or a headers segment that does
    /// not fit inside the frame.
    InvalidLength(u32),
    /// Declared and computed CRC32C over the 8-byte prelude differ.
    PreludeCrcMismatch { expected: u32, actual: u32 },
    /// Declared and computed CRC32C over the frame minus its last 4 bytes differ.
    MessageCrcMismatch { expected: u32, actual: u32 },
    /// Unknown TLV value-type tag (10 or above).
    InvalidHeaderType(u8),
    /// A header name holds invalid UTF-8.
    Utf8Error,
}

} // verus!
