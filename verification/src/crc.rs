//! CRC32C (Castagnoli) checksum, taken from the `crc32c` crate.
//!
//! The checksum itself is not restated here; it is a pure function of the
//! input bytes, named by `crc32c_of` and computed by the crate.

use vstd::prelude::*;

verus! {

/// The CRC32C checksum of a byte sequence.
pub uninterp spec fn crc32c_of(data: Seq<u8>) -> u32;

/// Relies on `crc32c::crc32c`: the checksum is a pure function of the input
/// bytes alone.
#[verifier::external_body]
pub fn crc32c_bytes(data: &Vec<u8>) -> (r: u32)
    ensures
        r == crc32c_of(data@),
{
    crc32c::crc32c(data.as_slice())
}

} // verus!
