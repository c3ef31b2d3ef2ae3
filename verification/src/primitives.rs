//! Hash functions and text encodings that outside crates compute.

use vstd::prelude::*;
use vstd::utf8::{encode_utf8, valid_utf8};
use crate::bytes::contents;
use crate::json::string_array_bytes;

verus! {

/// The SHA-256 digest of a byte string.
pub uninterp spec fn sha256_bytes(input: Seq<u8>) -> Seq<u8>;

/// The SHA3-256 digest of a byte string.
pub uninterp spec fn sha3_256_bytes(input: Seq<u8>) -> Seq<u8>;

/// The BLAKE2b-512 digest of a byte string.
pub uninterp spec fn blake2b_512_bytes(input: Seq<u8>) -> Seq<u8>;

/// The BLAKE2b-256 digest of a byte string.
pub uninterp spec fn blake2b_256_bytes(input: Seq<u8>) -> Seq<u8>;

/// The 128-bit XXH3 digest of a byte string.
pub uninterp spec fn xxh3_value(input: Seq<u8>) -> u128;

/// The unpadded URL-safe Base64 text of a byte string.
pub uninterp spec fn base64_url_text(input: Seq<u8>) -> Seq<char>;

/// The bytes that an unpadded URL-safe Base64 text stands for.
pub uninterp spec fn base64_url_bytes(text: Seq<char>) -> Option<Seq<u8>>;

/// The bytes that an unpadded standard Base64 text stands for.
pub uninterp spec fn base64_standard_bytes(text: Seq<char>) -> Option<Seq<u8>>;

/// A text in upper case.
pub uninterp spec fn uppercase_text(text: Seq<char>) -> Seq<char>;

/// The length of the unpadded Base64 text of `n` bytes.
pub open spec fn unpadded_len(n: nat) -> nat {
    (4 * n + 2) / 3
}

/// `sha2::Sha256::digest`: the digest is a function of the input alone.
#[verifier::external_body]
pub(crate) fn sha256(input: &[u8]) -> (digest: [u8; 32])
    ensures
        digest@ == sha256_bytes(input@),
{
    <sha2::Sha256 as sha2::Digest>::digest(input).into()
}

/// `sha3::Sha3_256::digest`: the digest is a function of the input alone.
#[verifier::external_body]
pub(crate) fn sha3_256(input: &[u8]) -> (digest: [u8; 32])
    ensures
        digest@ == sha3_256_bytes(input@),
{
    <sha3::Sha3_256 as sha3::Digest>::digest(input).into()
}

/// `blake2::Blake2b512::digest`: the digest is a function of the input alone.
#[verifier::external_body]
pub(crate) fn blake2b_512(input: &[u8]) -> (digest: [u8; 64])
    ensures
        digest@ == blake2b_512_bytes(input@),
{
    <blake2::Blake2b512 as blake2::Digest>::digest(input).into()
}

/// `blake2::Blake2b::<U32>::digest`: the digest is a function of the input alone.
#[verifier::external_body]
pub(crate) fn blake2b_256(input: &[u8]) -> (digest: [u8; 32])
    ensures
        digest@ == blake2b_256_bytes(input@),
{
    <blake2::Blake2b<blake2::digest::consts::U32> as blake2::Digest>::digest(input).into()
}

/// `xxhash_rust::xxh3::xxh3_128`: the digest is a function of the input alone.
#[verifier::external_body]
pub(crate) fn xxh3(input: &[u8]) -> (digest: u128)
    ensures
        digest == xxh3_value(input@),
{
    xxhash_rust::xxh3::xxh3_128(input)
}

/// `base64::Engine::encode` with `URL_SAFE_NO_PAD`: the text is a function of
/// the bytes, has one character per six bits, and decodes to the bytes again.
/// It panics where the length of the text overflows.
#[verifier::external_body]
pub(crate) fn base64_url_encode(input: &[u8]) -> (text: String)
    requires
        4 * input@.len() + 2 <= usize::MAX,
    ensures
        text@ == base64_url_text(input@),
        base64_url_bytes(text@) == Some(input@),
        encode_utf8(text@).len() == unpadded_len(input@.len()),
{
    base64::Engine::encode(&base64::engine::general_purpose::URL_SAFE_NO_PAD, input)
}

/// `base64::Engine::decode` with `URL_SAFE_NO_PAD`: success and the bytes are
/// functions of the text. Every four characters stand for three bytes, and the
/// rest for one byte less than there are characters.
#[verifier::external_body]
pub(crate) fn base64_url_decode(text: &str) -> (decoded: Option<Vec<u8>>)
    ensures
        decoded matches Some(bytes) ==> base64_url_bytes(text@) == Some(bytes@) && bytes@.len()
            == encode_utf8(text@).len() * 3 / 4,
        decoded is None ==> base64_url_bytes(text@) is None,
{
    base64::Engine::decode(&base64::engine::general_purpose::URL_SAFE_NO_PAD, text).ok()
}

/// `base64::Engine::decode` with `STANDARD_NO_PAD`: success and the bytes are
/// functions of the text.
#[verifier::external_body]
pub(crate) fn base64_standard_decode(text: &str) -> (decoded: Option<Vec<u8>>)
    ensures
        decoded matches Some(bytes) ==> base64_standard_bytes(text@) == Some(bytes@),
        decoded is None ==> base64_standard_bytes(text@) is None,
{
    base64::Engine::decode(&base64::engine::general_purpose::STANDARD_NO_PAD, text).ok()
}

/// `serde_json::to_vec` of an array of strings, which always succeeds: the
/// bytes are the strings in brackets, each in quotes with its control
/// characters, quotes and backslashes escaped, separated by commas.
#[verifier::external_body]
pub(crate) fn json_array(texts: &Vec<&str>) -> (bytes: Vec<u8>)
    ensures
        bytes@ == string_array_bytes(contents(texts@)),
{
    serde_json::to_vec(texts).expect("string arrays are serializable")
}

/// `String::from_utf8`: succeeds exactly on valid UTF-8, with the text that the
/// bytes encode.
#[verifier::external_body]
pub(crate) fn text_from_utf8(bytes: &[u8]) -> (text: Option<String>)
    ensures
        match text {
            Some(text) => valid_utf8(bytes@) && encode_utf8(text@) == bytes@,
            None => !valid_utf8(bytes@),
        },
{
    String::from_utf8(bytes.to_vec()).ok()
}

/// `str::to_uppercase`: the result is a function of the text alone.
#[verifier::external_body]
pub(crate) fn uppercase(text: &str) -> (upper: String)
    ensures
        upper@ == uppercase_text(text@),
{
    text.to_uppercase()
}

} // verus!
