use vstd::prelude::*;
use vstd::utf8::{valid_utf8, encode_utf8};

verus! {

/// Calls `String::from_utf8`, which takes a byte vector and returns it as a
/// `String` when it is valid UTF-8, without copying. Claimed: the result is
/// `Some` exactly when the bytes are valid UTF-8, and then the string's UTF-8
/// bytes are the given bytes.
#[verifier::external_body]
pub(crate) fn string_from_utf8(bytes: Vec<u8>) -> (r: Option<String>)
    ensures
        r is Some <==> valid_utf8(bytes@),
        r matches Some(s) ==> encode_utf8(s@) == bytes@,
{
    String::from_utf8(bytes).ok()
}

} // verus!
