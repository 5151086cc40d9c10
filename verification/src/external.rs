//! The library's trusted boundary: thin wrappers around the outside
//! functions the protocol engines rely on (UTF-8 decoding from std,
//! JSON validation from serde_json, base64 from the base64 crate), each
//! with the contract the wrapped function documents, and a proved lemma
//! about ASCII byte sequences.

use vstd::prelude::*;

verus! {

use vstd::utf8::{valid_utf8, decode_utf8, is_ascii_chars};

/// Whether `serde_json` accepts this text as a JSON document.  The verdict
/// is a function of the characters alone.
pub uninterp spec fn json_ok(s: Seq<char>) -> bool;

/// What the base64 crate's standard-alphabet encoder produces for a byte
/// sequence, as ASCII bytes.
pub uninterp spec fn b64_encode_of(s: Seq<u8>) -> Seq<u8>;

/// What the base64 crate's standard-alphabet decoder yields for a byte
/// sequence: the decoded bytes, or nothing when the input is rejected.
pub uninterp spec fn b64_decode_of(s: Seq<u8>) -> Option<Seq<u8>>;

/// The characters corresponding one-for-one to a sequence of ASCII bytes.
pub open spec fn ascii_chars_of(bytes: Seq<u8>) -> Seq<char> {
    Seq::new(bytes.len(), |i: int| bytes[i] as char)
}

/// A byte sequence below 0x80 throughout is valid UTF-8 and decodes to its
/// bytes read as characters.
pub proof fn lemma_ascii_bytes(bytes: Seq<u8>)
    requires
        forall|i: int| 0 <= i < bytes.len() ==> bytes[i] < 0x80,
    ensures
        valid_utf8(bytes),
        decode_utf8(bytes) == ascii_chars_of(bytes),
        is_ascii_chars(ascii_chars_of(bytes)),
{
    let chars = ascii_chars_of(bytes);
    assert(is_ascii_chars(chars)) by {
        assert forall|i: int| 0 <= i < chars.len() implies '\0' <= #[trigger] chars[i]
            <= '\u{7f}' by {
            assert(bytes[i] < 0x80);
        }
    }
    vstd::utf8::is_ascii_chars_encode_utf8(chars);
    assert(vstd::utf8::encode_utf8(chars) =~= bytes);
    vstd::utf8::encode_utf8_valid_utf8(chars);
    vstd::utf8::encode_utf8_decode_utf8(chars);
}

/// A text faithfully stands for a byte sequence: whenever the bytes are
/// valid UTF-8, the text is their decoding.
pub open spec fn text_matches_bytes(bytes: Seq<u8>, text: Seq<char>) -> bool {
    valid_utf8(bytes) ==> text == decode_utf8(bytes)
}

/// Relies on std's `String::from_utf8`: it succeeds exactly on valid UTF-8
/// and then returns the string of those bytes.
#[verifier::external_body]
pub fn utf8_string(v: &Vec<u8>) -> (r: Option<String>)
    ensures
        match r {
            Some(s) => valid_utf8(v@) && s@ == decode_utf8(v@),
            None => !valid_utf8(v@),
        },
{
    match String::from_utf8(v.clone()) {
        Ok(s) => Some(s),
        Err(_) => None,
    }
}

/// Relies on std's `String::from_utf8_lossy`: valid UTF-8 input is returned
/// unchanged as text.
#[verifier::external_body]
pub fn lossy_string(v: &Vec<u8>) -> (r: String)
    ensures
        valid_utf8(v@) ==> r@ == decode_utf8(v@),
{
    String::from_utf8_lossy(v).to_string()
}

/// Relies on `serde_json::from_str` parsing to `serde_json::Value`: whether
/// a text is accepted as JSON depends on the text alone.
#[verifier::external_body]
pub fn json_parse_ok(s: &str) -> (r: bool)
    ensures
        r == json_ok(s@),
{
    serde_json::from_str::<serde_json::Value>(s).is_ok()
}

/// Relies on the base64 crate's `Engine::encode` with the standard engine:
/// the encoding depends on the input bytes alone.
#[verifier::external_body]
pub fn b64_encode_bytes(data: &Vec<u8>) -> (r: Vec<u8>)
    ensures
        r@ == b64_encode_of(data@),
{
    base64::Engine::encode(&base64::prelude::BASE64_STANDARD, data.as_slice()).into_bytes()
}

/// Relies on the base64 crate's `Engine::decode` with the standard engine:
/// acceptance and the decoded bytes depend on the input bytes alone.
#[verifier::external_body]
pub fn b64_decode_bytes(data: &Vec<u8>) -> (r: Option<Vec<u8>>)
    ensures
        match r {
            Some(d) => b64_decode_of(data@) == Some(d@),
            None => b64_decode_of(data@) is None,
        },
{
    match base64::Engine::decode(&base64::prelude::BASE64_STANDARD, data.as_slice()) {
        Ok(d) => Some(d),
        Err(_) => None,
    }
}

} // verus!
