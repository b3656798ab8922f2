//! Text encodings used by the header decoder: lowercase hex (via the `hex`
//! crate) and UTF-8 decoding, strict and lossy (via `std`).

use vstd::prelude::*;

verus! {

/// The sixteen lowercase hex digits, in value order.
pub open spec fn hex_digits() -> Seq<char> {
    seq!['0', '1', '2', '3', '4', '5', '6', '7', '8', '9', 'a', 'b', 'c', 'd', 'e', 'f']
}

/// Lowercase hex rendering of a byte sequence: two digits per byte, in order.
pub open spec fn hex_of(b: Seq<u8>) -> Seq<char>
    decreases b.len(),
{
    if b.len() == 0 {
        Seq::empty()
    } else {
        seq![hex_digits()[b[0] as int / 16], hex_digits()[b[0] as int % 16]] + hex_of(b.skip(1))
    }
}

/// Relies on `hex::encode`: each input byte becomes exactly two lowercase hex
/// digits, in input order.
#[verifier::external_body]
pub fn hex_encode(data: &Vec<u8>) -> (r: String)
    ensures
        r@ == hex_of(data@),
{
    hex::encode(data.as_slice())
}

/// The characters decoded from a byte sequence if it is valid UTF-8, `None`
/// otherwise.
pub uninterp spec fn utf8_decode(b: Seq<u8>) -> Option<Seq<char>>;

/// Relies on `String::from_utf8` of `std`: succeeds exactly when the bytes are
/// valid UTF-8, and then returns the decoded string; the result depends on
/// the bytes alone.
#[verifier::external_body]
pub fn utf8_to_string(b: Vec<u8>) -> (r: Option<String>)
    ensures
        (match r {
            Option::Some(s) => utf8_decode(b@) == Option::Some(s@),
            Option::None => utf8_decode(b@) is None,
        }),
{
    match String::from_utf8(b) {
        Ok(s) => Some(s),
        Err(_) => None,
    }
}

/// The characters of the lossy UTF-8 rendering of a byte sequence (invalid
/// sequences become replacement characters).
pub uninterp spec fn utf8_lossy(b: Seq<u8>) -> Seq<char>;

/// Relies on `String::from_utf8_lossy` of `std`: the result is a pure
/// function of the input bytes.
#[verifier::external_body]
pub fn utf8_lossy_string(b: &Vec<u8>) -> (r: String)
    ensures
        r@ == utf8_lossy(b@),
{
    String::from_utf8_lossy(b.as_slice()).into_owned()
}

} // verus!
