//! The payload of a file record: the file's bytes, transformed with the key
//! and then written as base64 text with the standard alphabet and padding.

use vstd::prelude::*;
use crate::transform::{lemma_transform_involution, transform, xor_bytes};

verus! {

/// `base64::DecodeError`, the error of text that is not base64. It is only
/// told apart from success.
#[verifier::external_type_specification]
#[verifier::external_body]
pub struct ExDecodeError(base64::DecodeError);

/// The base64 text of `data`, with the standard alphabet and padding.
pub uninterp spec fn base64_encode(data: Seq<u8>) -> Seq<u8>;

/// The bytes that `text` is the base64 text of, with the standard alphabet
/// and padding, if it is the text of any.
pub uninterp spec fn base64_decode(text: Seq<u8>) -> Option<Seq<u8>>;

/// Whether `b` can occur in base64 text: a letter, a digit, `+`, `/` or the
/// padding sign `=`.
pub open spec fn is_base64_symbol(b: u8) -> bool {
    ||| 0x41 <= b <= 0x5a
    ||| 0x61 <= b <= 0x7a
    ||| 0x30 <= b <= 0x39
    ||| b == 0x2b
    ||| b == 0x2f
    ||| b == 0x3d
}

/// Whether every byte of `text` can occur in base64 text.
pub open spec fn is_base64_text(text: Seq<u8>) -> bool {
    forall|i: int| 0 <= i < text.len() ==> is_base64_symbol(#[trigger] text[i])
}

/// Whether the base64 text of `n` bytes fits in memory: four characters for
/// every three bytes, the last group padded.
pub open spec fn fits_encoded(n: nat) -> bool {
    4 * ((n + 2) / 3) <= isize::MAX
}

/// Tells whether the base64 text of `len` bytes fits in memory.
pub fn can_encode(len: usize) -> (r: bool)
    ensures
        r == fits_encoded(len as nat),
{
    let groups: u128 = (len as u128 + 2) / 3;
    4 * groups <= isize::MAX as u128
}

/// Calls `base64::Engine::encode` on the engine
/// `base64::engine::general_purpose::STANDARD` and hands out the bytes of the
/// string it returns. The text holds only symbols of the standard alphabet and
/// the padding sign, and decoding it with the same engine gives `data` back.
#[verifier::external_body]
fn base64_text(data: &[u8]) -> (text: Vec<u8>)
    requires
        fits_encoded(data@.len()),
    ensures
        text@ == base64_encode(data@),
        is_base64_text(text@),
        base64_decode(text@) == Some(data@),
{
    base64::Engine::encode(&base64::engine::general_purpose::STANDARD, data).into_bytes()
}

/// Calls `base64::Engine::decode` on the engine
/// `base64::engine::general_purpose::STANDARD`.
#[verifier::external_body]
fn base64_bytes(text: &[u8]) -> (r: Result<Vec<u8>, base64::DecodeError>)
    ensures
        match r {
            Ok(data) => base64_decode(text@) == Some(data@),
            Err(_) => base64_decode(text@) is None,
        },
{
    base64::Engine::decode(&base64::engine::general_purpose::STANDARD, text)
}

/// The payload that stands for `content` under `key`.
pub open spec fn payload_of(content: Seq<u8>, key: Seq<u8>) -> Seq<u8> {
    base64_encode(xor_bytes(content, key))
}

/// The content that `payload` stands for under `key`, if `payload` is base64
/// text.
pub open spec fn content_of(payload: Seq<u8>, key: Seq<u8>) -> Option<Seq<u8>> {
    match base64_decode(payload) {
        Some(transformed) => Some(xor_bytes(transformed, key)),
        None => None,
    }
}

/// A payload that is not base64 text.
#[derive(Debug, Clone, Copy, PartialEq, Eq, Structural)]
pub struct PayloadError;

/// Encodes the content of a file as a payload. The payload is base64 text,
/// and decoding it with the same key gives the content back.
pub fn encode_payload(content: &[u8], key: &[u8]) -> (payload: Vec<u8>)
    requires
        key@.len() > 0,
        fits_encoded(content@.len()),
    ensures
        payload@ == payload_of(content@, key@),
        is_base64_text(payload@),
        content_of(payload@, key@) == Some(content@),
{
    let transformed = transform(content, key);
    proof {
        lemma_transform_involution(content@, key@);
    }
    base64_text(transformed.as_slice())
}

/// Decodes a payload into the content of a file. Fails exactly when the
/// payload is not base64 text.
pub fn decode_payload(payload: &[u8], key: &[u8]) -> (r: Result<Vec<u8>, PayloadError>)
    requires
        key@.len() > 0,
    ensures
        match r {
            Ok(content) => content_of(payload@, key@) == Some(content@),
            Err(_) => content_of(payload@, key@) is None,
        },
{
    match base64_bytes(payload) {
        Ok(transformed) => Ok(transform(transformed.as_slice(), key)),
        Err(_) => Err(PayloadError),
    }
}

} // verus!
