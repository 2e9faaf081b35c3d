//! Base64 (standard alphabet, with padding) by the `base64` crate.
use base64::Engine;
use vstd::prelude::*;

verus! {

/// What `base64::engine::general_purpose::STANDARD.encode` returns for the
/// bytes.
pub uninterp spec fn base64_encode(bytes: Seq<u8>) -> Seq<char>;

/// What `base64::engine::general_purpose::STANDARD.decode` returns for the
/// bytes of a text (`None` for its error).
pub uninterp spec fn base64_decode(text: Seq<u8>) -> Option<Seq<u8>>;

/// The byte lengths that `encode` takes: longer inputs make its length
/// computation overflow, and it panics.
pub open spec fn base64_encodable(n: nat) -> bool {
    n + 3 <= (usize::MAX / 4) * 3
}

/// A character of the standard base64 alphabet or the padding `=`.
pub open spec fn is_base64_char(c: char) -> bool {
    ('A' <= c && c <= 'Z') || ('a' <= c && c <= 'z') || ('0' <= c && c <= '9') || c == '+' || c
        == '/' || c == '='
}

/// `STANDARD.encode`. Stated besides the name: the output is made of the
/// base64 alphabet and `=` (the crate's `alphabet::STANDARD` and padding), and
/// `STANDARD.decode` gives the input back (the engine's documented round
/// trip).
#[verifier::external_body]
pub(crate) fn encode(bytes: &[u8]) -> (r: String)
    requires
        base64_encodable(bytes@.len()),
    ensures
        r@ == base64_encode(bytes@),
        forall|i: int| 0 <= i < r@.len() ==> is_base64_char(#[trigger] r@[i]),
        base64_decode(vstd::utf8::encode_utf8(r@)) == Some(bytes@),
{
    base64::engine::general_purpose::STANDARD.encode(bytes)
}

/// Whether `n` bytes can be base64-encoded (see `base64_encodable`).
pub fn fits_base64(n: usize) -> (r: bool)
    ensures
        r == base64_encodable(n as nat),
{
    let limit: usize = (usize::MAX / 4) * 3;
    n <= limit - 3
}

/// The message for an image too large to encode as base64.
pub open spec fn too_large_error() -> Seq<char> {
    "image too large to encode"@
}

/// `STANDARD.decode`: the decoded bytes, or `None` where the text is not
/// valid base64.
#[verifier::external_body]
pub(crate) fn decode(text: &[u8]) -> (r: Option<Vec<u8>>)
    ensures
        r is Some <==> base64_decode(text@) is Some,
        r matches Some(b) ==> base64_decode(text@) == Some(b@),
{
    base64::engine::general_purpose::STANDARD.decode(text).ok()
}

} // verus!
