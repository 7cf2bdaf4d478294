//! Text: the step from bytes to `String`.

use vstd::prelude::*;
use vstd::utf8::{decode_utf8, encode_utf8, valid_utf8};

verus! {

/// `String::from_utf8` checks that the bytes are UTF-8 and, where they are,
/// makes them a string without changing them: the encoding of the string it
/// returns is the bytes given. It fails exactly where the bytes are not
/// UTF-8.
#[verifier::external_body]
pub(crate) fn string_from_utf8(bytes: Vec<u8>) -> (r: Option<String>)
    ensures
        match r {
            Some(s) => valid_utf8(bytes@) && encode_utf8(s@) == bytes@,
            None => !valid_utf8(bytes@),
        },
{
    match String::from_utf8(bytes) {
        Ok(s) => Some(s),
        Err(_) => None,
    }
}

/// Reads `bytes` as UTF-8 text.
pub fn text_of(bytes: &[u8]) -> (r: Option<String>)
    ensures
        match r {
            Some(s) => valid_utf8(bytes@) && s@ == decode_utf8(bytes@) && encode_utf8(s@)
                == bytes@,
            None => !valid_utf8(bytes@),
        },
{
    let r = string_from_utf8(vstd::slice::slice_to_vec(bytes));
    proof {
        if r is Some {
            vstd::utf8::encode_utf8_decode_utf8(r->Some_0@);
        }
    }
    r
}

} // verus!
