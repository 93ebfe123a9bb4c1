use crate::encoder::{encoding, Encoder};
use crate::value::{model, Value};
use sha1::Digest;
use vstd::prelude::*;
use vstd::string::StringSliceAdditionalSpecFns;

verus! {

/// An MD5 digest.
#[derive(PartialEq, Eq, Clone, Copy, Debug)]
pub struct Md5(pub [u8; 16]);

/// A SHA-1 digest.
#[derive(PartialEq, Eq, Clone, Copy, Debug)]
pub struct Sha1(pub [u8; 20]);

/// The SHA-1 digest of a byte string.
pub uninterp spec fn sha1_digest(bytes: Seq<u8>) -> Seq<u8>;

/// Calls `sha1::Sha1::digest`, whose result is the 20-byte SHA-1 digest of
/// the bytes, a function of them alone.
#[verifier::external_body]
pub(crate) fn sha1_of(bytes: &[u8]) -> (r: [u8; 20])
    ensures
        r@ == sha1_digest(bytes@),
{
    sha1::Sha1::digest(bytes).into()
}

/// The value of a hexadecimal digit, in either case.
pub open spec fn hex_digit(c: u8) -> Option<u8> {
    if 0x30 <= c <= 0x39 {
        Some((c - 0x30) as u8)
    } else if 0x41 <= c <= 0x46 {
        Some((c - 0x41 + 10) as u8)
    } else if 0x61 <= c <= 0x66 {
        Some((c - 0x61 + 10) as u8)
    } else {
        None
    }
}

/// The bytes that a hexadecimal string writes, two digits a byte, the high
/// digit first; none where the length is odd or a character is no digit.
pub open spec fn hex_decoding(s: Seq<u8>) -> Option<Seq<u8>> {
    if s.len() % 2 == 0 && forall|i: int| 0 <= i < s.len() ==> #[trigger] hex_digit(s[i]) is Some {
        Some(
            Seq::new(
                s.len() / 2,
                |k: int| (hex_digit(s[2 * k])->0 * 16 + hex_digit(s[2 * k + 1])->0) as u8,
            ),
        )
    } else {
        None
    }
}

/// Calls `hex::decode`: an odd length or a character that is no hexadecimal
/// digit (either case) is an error; otherwise each pair of digits is one
/// byte, the high digit first.
#[verifier::external_body]
fn hex_decode(hex: &str) -> (r: Option<Vec<u8>>)
    ensures
        r is Some <==> hex_decoding(hex.spec_bytes()) is Some,
        r matches Some(v) ==> hex_decoding(hex.spec_bytes()) == Some(v@),
{
    hex::decode(hex).ok()
}

impl Sha1 {
    /// The digest that a hexadecimal string of forty digits writes.
    pub fn from_hex(hex: &str) -> (r: Option<Self>)
        ensures
            r is Some <==> (hex_decoding(hex.spec_bytes()) matches Some(b) && b.len() == 20),
            r matches Some(h) ==> hex_decoding(hex.spec_bytes()) == Some(h.0@),
    {
        let bytes = match hex_decode(hex) {
            Some(bytes) => bytes,
            None => return None,
        };
        if bytes.len() != 20 {
            return None;
        }
        let mut out = [0u8; 20];
        let mut i: usize = 0;
        while i < 20
            invariant
                bytes@.len() == 20,
                i <= 20,
                forall|j: int| 0 <= j < i ==> out@[j] == bytes@[j],
            decreases 20 - i,
        {
            out[i] = bytes[i];
            i += 1;
        }
        assert(out@ =~= bytes@);
        Some(Sha1(out))
    }

    /// The digest of the bencoding of a value.
    pub fn of_value(value: &Value) -> (r: Self)
        ensures
            r.0@ == sha1_digest(encoding(model(*value))),
    {
        let mut bytes: Vec<u8> = Vec::new();
        value.encode(&mut bytes);
        assert(bytes@ =~= encoding(model(*value)));
        Sha1(sha1_of(bytes.as_slice()))
    }
}

} // verus!
