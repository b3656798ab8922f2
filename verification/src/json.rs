//! Payload JSON parsing through `serde_json`. The decoder only needs to know
//! whether the payload bytes parse as JSON; the parsed value is carried
//! through opaquely.

use vstd::prelude::*;

verus! {

#[verifier::external_type_specification]
#[verifier::external_body]
pub struct ExJsonValue(serde_json::Value);

/// Whether a byte sequence parses as a JSON document.
pub uninterp spec fn json_accepts(b: Seq<u8>) -> bool;

/// Relies on `serde_json::from_slice::<Value>`: success depends on the input
/// bytes alone.
#[verifier::external_body]
pub fn json_parse(b: &Vec<u8>) -> (r: Option<serde_json::Value>)
    ensures
        r is Some <==> json_accepts(b@),
{
    serde_json::from_slice(b.as_slice()).ok()
}

} // verus!
