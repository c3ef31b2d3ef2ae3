//! Reversible XOR accumulator over XXH3-128 digests.

use vstd::prelude::*;
use vstd::utf8::encode_utf8;
use crate::primitives::xxh3_value;
use super::xxh3::{hash_bytes, Digest};

verus! {

/// Incremental room-level XOR accumulator.
#[derive(Debug, Clone, Copy, PartialEq, Eq, Structural, Hash)]
pub struct XorSum {
    pub sum: Digest,
}

impl Default for XorSum {
    fn default() -> (result: Self)
        ensures
            result.sum == 0,
    {
        XorSum::new()
    }
}

impl XorSum {
    /// Returns the empty accumulator.
    #[must_use]
    pub fn new() -> (result: Self)
        ensures
            result.sum == 0,
    {
        XorSum { sum: 0 }
    }

    /// Returns the current XOR sum.
    #[must_use]
    pub fn digest(self) -> (digest: Digest)
        ensures
            digest == self.sum,
    {
        self.sum
    }

    /// Applies one digest to the accumulator.
    pub fn update(&mut self, digest: Digest)
        ensures
            final(self).sum == old(self).sum ^ digest,
    {
        self.sum = self.sum ^ digest;
    }

    /// Inserts a byte slice into the accumulator.
    pub fn insert_bytes(&mut self, input: &[u8])
        ensures
            final(self).sum == old(self).sum ^ xxh3_value(input@),
    {
        self.update(hash_bytes(input));
    }

    /// Inserts a string slice into the accumulator.
    pub fn insert_str(&mut self, input: &str)
        ensures
            final(self).sum == old(self).sum ^ xxh3_value(encode_utf8(input@)),
    {
        self.insert_bytes(input.as_bytes());
    }

    /// Removes a byte slice from the accumulator.
    pub fn remove_bytes(&mut self, input: &[u8])
        ensures
            final(self).sum == old(self).sum ^ xxh3_value(input@),
    {
        self.update(hash_bytes(input));
    }

    /// Removes a string slice from the accumulator.
    pub fn remove_str(&mut self, input: &str)
        ensures
            final(self).sum == old(self).sum ^ xxh3_value(encode_utf8(input@)),
    {
        self.remove_bytes(input.as_bytes());
    }

    /// Replaces one digest with another.
    pub fn replace(&mut self, old_digest: Digest, new_digest: Digest)
        ensures
            final(self).sum == (old(self).sum ^ old_digest) ^ new_digest,
    {
        self.sum = self.sum ^ old_digest;
        self.sum = self.sum ^ new_digest;
    }
}

/// Applying a digest twice restores the sum, the order of digests does not
/// matter, and replacing a digest removes the old one and applies the new one.
pub proof fn xor_sum_laws(sum: u128, a: u128, b: u128)
    ensures
        (sum ^ a) ^ a == sum,
        (sum ^ a) ^ b == (sum ^ b) ^ a,
        ((sum ^ a) ^ a) ^ b == sum ^ b,
{
    xor_sum_bits(sum, a, b);
}

proof fn xor_sum_bits(sum: u128, a: u128, b: u128)
    by (bit_vector)
    ensures
        (sum ^ a) ^ a == sum,
        (sum ^ a) ^ b == (sum ^ b) ^ a,
{
}

} // verus!
