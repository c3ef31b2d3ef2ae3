//! XXH3-128 helpers for reconciliation digests.

use vstd::prelude::*;
use vstd::utf8::encode_utf8;
use crate::primitives::{xxh3, xxh3_value};

verus! {

/// A 128-bit XXH3 digest.
pub type Digest = u128;

/// Computes the XXH3-128 digest of `input`.
#[must_use]
pub fn hash_bytes(input: &[u8]) -> (digest: Digest)
    ensures
        digest == xxh3_value(input@),
{
    xxh3(input)
}

/// Computes the XXH3-128 digest of a string slice.
#[must_use]
pub fn hash_str(input: &str) -> (digest: Digest)
    ensures
        digest == xxh3_value(encode_utf8(input@)),
{
    hash_bytes(input.as_bytes())
}

} // verus!
