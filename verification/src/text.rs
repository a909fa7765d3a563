//! Bytes as text.

use vstd::prelude::*;
use vstd::utf8::{encode_utf8, valid_utf8};

verus! {

/// The bytes as text, by `core::str::from_utf8`: there is a text if and only
/// if the bytes are valid UTF-8, and the text then encodes to exactly these
/// bytes.
#[verifier::external_body]
pub(crate) fn text_of(bytes: &[u8]) -> (r: Option<&str>)
    ensures
        r is Some <==> valid_utf8(bytes@),
        r matches Some(s) ==> encode_utf8(s@) == bytes@,
{
    match core::str::from_utf8(bytes) {
        Ok(text) => Some(text),
        Err(_) => None,
    }
}

} // verus!
