//! Small helpers: blank-text test, trimming, and the byte-vector round
//! trip.

use vstd::prelude::*;
use vstd::string::StrSliceExecFns;
use vstd::string::StringSliceAdditionalSpecFns;
use vstd::utf8::{decode_utf8, encode_utf8, valid_utf8};

use crate::ascii;
use crate::ascii::is_space_char;
use crate::basic;
use crate::basic::trimmed;
use crate::unicode;
use crate::unicode::lossy_decode;

verus! {

/// True exactly when the text holds no character besides whitespace.
pub fn is_empty_or_whitespace(text: &str) -> (result: bool)
    ensures
        result == forall|i: int| 0 <= i < text@.len() ==> is_space_char(text@[i]),
{
    let n = text.unicode_len();
    let mut i: usize = 0;
    while i < n && ascii::is_space(text.get_char(i))
        invariant
            n == text@.len(),
            0 <= i <= n,
            forall|k: int| 0 <= k < i ==> is_space_char(text@[k]),
        decreases n - i,
    {
        i = i + 1;
    }
    i == n
}

/// Removes leading and trailing whitespace.
pub fn trim_whitespace(text: &str) -> (result: String)
    ensures
        result@ == trimmed(text@),
{
    basic::trim_whitespace(text)
}

/// The UTF-8 bytes of the text, as an owned vector.
pub fn to_byte_vector(text: &str) -> (result: Vec<u8>)
    ensures
        result@ == encode_utf8(text@),
{
    text.as_bytes_vec()
}

/// Decodes bytes to text: valid UTF-8 comes back exactly; invalid
/// sequences are replaced as `String::from_utf8_lossy` replaces them.
pub fn to_string(bytes: &[u8]) -> (result: String)
    ensures
        result@ == lossy_decode(bytes@),
        valid_utf8(bytes@) ==> result@ == decode_utf8(bytes@),
{
    unicode::string_from_utf8_lossy(bytes)
}

/// Turning text into its UTF-8 bytes and decoding them again gives the
/// original text back.
pub proof fn lemma_byte_vector_round_trip(s: Seq<char>)
    ensures
        valid_utf8(encode_utf8(s)),
        decode_utf8(encode_utf8(s)) == s,
{
    vstd::utf8::encode_utf8_valid_utf8(s);
    vstd::utf8::encode_utf8_decode_utf8(s);
}

} // verus!
