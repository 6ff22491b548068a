//! Content hashes: BLAKE3, written in hexadecimal.

use vstd::prelude::*;
use vstd::string::*;

verus! {

/// The BLAKE3 hash of a byte sequence in lower-case hexadecimal, as
/// `blake3::hash` computes it and `Hash::to_hex` writes it.
pub uninterp spec fn blake3_hex(input: Seq<u8>) -> Seq<char>;

/// A digit of lower-case hexadecimal.
pub open spec fn is_hex_digit(c: char) -> bool {
    ('0' <= c <= '9') || ('a' <= c <= 'f')
}

/// A hash as it is written: 64 digits of lower-case hexadecimal.
pub open spec fn is_digest(text: Seq<char>) -> bool {
    text.len() == 64 && forall|i: int| 0 <= i < text.len() ==> is_hex_digit(#[trigger] text[i])
}

/// Calls `blake3::hash` and writes the result with `Hash::to_hex`.
/// Trusted: the result is the hash of the input, a function of the bytes
/// alone, written as 64 digits of lower-case hexadecimal, two for each of
/// the 32 bytes.
#[verifier::external_body]
pub(crate) fn digest_hex(input: &[u8]) -> (r: String)
    ensures
        r@ == blake3_hex(input@),
        is_digest(r@),
{
    blake3::hash(input).to_hex().to_string()
}

/// The hash of a text: that of its UTF-8 bytes.
pub open spec fn text_hash(text: Seq<char>) -> Seq<char> {
    blake3_hex(vstd::utf8::encode_utf8(text))
}

/// Hashes a text.
pub fn hash_text(text: &str) -> (r: String)
    ensures
        r@ == text_hash(text@),
        is_digest(r@),
{
    digest_hex(text.as_bytes())
}

} // verus!
