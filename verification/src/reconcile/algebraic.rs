//! Element hashes, the room accumulator and syndrome sketches.

use vstd::prelude::*;
use vstd::utf8::encode_utf8;
use crate::bytes::{
    be_bytes, be_bytes_len, be_value, be_value_of_bytes, byte_range_values, contents,
    encode_utf8_injective, le_bytes, le_value, le_value_of_bytes, push_be, push_le, read_be_u128,
    read_be_u64, read_le_u64, sort_texts, sorted_texts, sorted_texts_unique,
};
use crate::json::string_array_bytes;
use crate::primitives::{
    base64_standard_bytes, base64_standard_decode, base64_url_bytes, base64_url_decode,
    base64_url_encode, base64_url_text, json_array, sha256, sha256_bytes, unpadded_len,
};
use super::field::{
    power, power_add, product, product_one, square, xor_assoc, xor_cancel, xor_comm, xor_zero,
};
use super::pinsketch::{
    ascending, element_set, exhausts, failure_excludes, pyramid_monotone, sketch_of, square_pyramid,
    success_excludes, sufficient_work, trial_cost, MAX_FACTOR_WORK,
};
use super::polynomial::zeros;
use super::recurrence::power_sum;

verus! {

/// Maximum extraction capacity for an unbucketed sketch.
pub const MAX_SKETCH_CAPACITY: usize = 32;

/// Default local extraction limit for CPU-bounded sketch decoding.
pub const MAX_LOCAL_SKETCH_DECODE_CAPACITY: usize = MAX_SKETCH_CAPACITY;

/// Longest encoded event hash.
pub const EVENT_HASH_ENCODED_LEN: usize = 43;

/// An invalid event identifier, wire digest, or sketch.
#[derive(Debug, Clone, Copy, PartialEq, Eq, Structural)]
pub enum AlgebraicError {
    InvalidEventId,
    InvalidBase64,
    InvalidDigestLength,
    InvalidSketchCapacity,
    InvalidSketchLength,
    DecodeFailure,
    BudgetExhausted,
    ZeroShortIdentifier,
    InvalidBucketIndex,
    CountOverflow,
    CountUnderflow,
}

/// Multiplies two elements of the 64-bit binary field.
#[must_use]
pub fn gf64_mul(left: u64, right: u64) -> (result: u64)
    ensures
        result == product(left, right),
{
    super::gf64::mul(left, right)
}

/// Encoding used to derive a Matrix event ID's canonical 32-byte digest.
#[derive(Debug, Clone, Copy, PartialEq, Eq, Structural)]
pub enum EventIdFormat {
    /// Room versions 1 and 2 hash the complete event ID.
    Legacy,
    /// Room version 3 uses unpadded standard Base64.
    V3,
    /// Room versions 4 and later use unpadded URL-safe Base64.
    V4Plus,
}

/// The two truncations of a reconciled element's canonical 32-byte digest.
#[derive(Debug, Clone, Copy, PartialEq, Eq, Structural, Hash)]
pub struct ElementHash {
    /// First 128 bits, interpreted in network byte order.
    pub h128: u128,
    /// First nonzero 64-bit chunk of the element digest (network byte order),
    /// falling back to 1 if all four 64-bit chunks are zero.
    pub h64: u64,
}

/// The number in the `i`-th 64-bit chunk of a digest.
pub open spec fn digest_chunk(digest: Seq<u8>, i: int) -> nat {
    be_value(digest.subrange(8 * i, 8 * i + 8))
}

/// The first nonzero 64-bit chunk of a digest from chunk `i` on, or one.
pub open spec fn short_identifier(digest: Seq<u8>, i: int) -> nat
    decreases 4 - i,
{
    if i >= 4 {
        1
    } else if digest_chunk(digest, i) != 0 {
        digest_chunk(digest, i)
    } else {
        short_identifier(digest, i + 1)
    }
}

/// The digest that an event ID stands for, or why there is none.
pub open spec fn event_digest(id: Seq<char>, format: EventIdFormat) -> Result<
    Seq<u8>,
    AlgebraicError,
> {
    if id.len() == 0 || id[0] != '$' {
        Err(AlgebraicError::InvalidEventId)
    } else if format == EventIdFormat::Legacy {
        Ok(sha256_bytes(encode_utf8(id)))
    } else if encode_utf8(id.skip(1)).len() > EVENT_HASH_ENCODED_LEN {
        Err(AlgebraicError::InvalidBase64)
    } else if format == EventIdFormat::V3 {
        digest_of_decoded(base64_standard_bytes(id.skip(1)))
    } else {
        digest_of_decoded(base64_url_bytes(id.skip(1)))
    }
}

/// What the decoded part of an event ID amounts to.
pub open spec fn digest_of_decoded(decoded: Option<Seq<u8>>) -> Result<Seq<u8>, AlgebraicError> {
    match decoded {
        None => Err(AlgebraicError::InvalidBase64),
        Some(bytes) => if bytes.len() == 32 {
            Ok(bytes)
        } else {
            Err(AlgebraicError::InvalidEventId)
        },
    }
}

/// The result of a digest computation, with the digest as a sequence.
pub open spec fn digest_result(result: Result<[u8; 32], AlgebraicError>) -> Result<
    Seq<u8>,
    AlgebraicError,
> {
    match result {
        Ok(digest) => Ok(digest@),
        Err(error) => Err(error),
    }
}

/// The Base64-decoded part of an event ID as a digest, if it has 32 bytes.
pub fn digest_from_decoded(decoded: Option<Vec<u8>>) -> (result: Result<[u8; 32], AlgebraicError>)
    ensures
        digest_result(result) == digest_of_decoded(
            match decoded {
                Some(bytes) => Some(bytes@),
                None => None,
            },
        ),
{
    match decoded {
        None => Err(AlgebraicError::InvalidBase64),
        Some(bytes) => {
            if bytes.len() != 32 {
                return Err(AlgebraicError::InvalidEventId);
            }
            let mut digest: [u8; 32] = [0; 32];
            let mut index: usize = 0;
            while index < 32
                invariant
                    index <= 32,
                    bytes.len() == 32,
                    forall|i: int| 0 <= i < index ==> digest@[i] == bytes@[i],
                decreases 32 - index,
            {
                digest[index] = bytes[index];
                index = index + 1;
            }
            proof {
                assert(digest@ =~= bytes@);
            }
            Ok(digest)
        },
    }
}

/// The text after a leading `$`.
fn strip_sigil(text: &str) -> (rest: Option<&str>)
    ensures
        rest is Some <==> text@.len() > 0 && text@[0] == '$',
        rest matches Some(rest) ==> rest@ == text@.skip(1),
{
    let bytes: &[u8] = text.as_bytes();
    proof {
        sigil_encoding(text@);
    }
    if bytes.len() > 0 && bytes[0] == 0x24 {
        let (_, rest) = text.split_at(1);
        proof {
            assert(encode_utf8(rest@) =~= encode_utf8(text@.skip(1)));
            encode_utf8_injective(rest@, text@.skip(1));
        }
        Some(rest)
    } else {
        None
    }
}

/// The `$` sigil is a single byte, and no other character starts with it.
proof fn sigil_encoding(text: Seq<char>)
    ensures
        encode_utf8(text).len() > 0 && encode_utf8(text)[0] == 0x24 <==> text.len() > 0 && text[0]
            == '$',
        text.len() > 0 && text[0] == '$' ==> {
            &&& encode_utf8(text).subrange(1, encode_utf8(text).len() as int) =~= encode_utf8(
                text.skip(1),
            )
            &&& vstd::utf8::is_char_boundary(encode_utf8(text), 1)
        },
{
    if text.len() > 0 {
        vstd::utf8::encode_utf8_first_scalar(text);
        vstd::utf8::encode_utf8_valid_utf8(text);
        assert(text.drop_first() =~= text.skip(1));
        let c = text[0];
        vstd::utf8::char_is_scalar(c);
        let v = c as u32;
        let bytes = encode_utf8(text);
        let lead = vstd::utf8::encode_scalar(v);
        scalar_lead(v);
        assert(bytes =~= lead + encode_utf8(text.skip(1)));
        assert(lead.len() >= 1);
        assert(bytes[0] == lead[0]);
        vstd::utf8::char_u32_cast(c, v);
        assert('$' as u32 == 0x24u32);
        assert(v == 0x24 <==> c == '$');
        if c == '$' {
            assert(lead =~= seq![0x24u8]);
            assert(vstd::utf8::length_of_first_scalar(bytes) == 1);
            reveal_with_fuel(vstd::utf8::valid_utf8, 2);
            reveal_with_fuel(vstd::utf8::is_char_boundary, 2);
        }
    }
}

proof fn scalar_lead(v: u32)
    by (bit_vector)
    ensures
        v == 0x24 ==> vstd::utf8::leading_byte_width_1(v) == 0x24,
        v != 0x24 && v <= 0x7f ==> vstd::utf8::leading_byte_width_1(v) != 0x24,
        vstd::utf8::leading_byte_width_2(v) != 0x24,
        vstd::utf8::leading_byte_width_3(v) != 0x24,
        vstd::utf8::leading_byte_width_4(v) != 0x24,
{
}

impl ElementHash {
    /// Derives the two truncations from a canonical 32-byte element digest.
    #[must_use]
    pub fn from_digest32(digest: [u8; 32]) -> (hash: Self)
        ensures
            hash.h128 == be_value(digest@.take(16)),
            hash.h64 == short_identifier(digest@, 0),
            hash.h64 != 0,
    {
        let h128: u128 = read_be_u128(digest.as_slice(), 0);
        proof {
            assert(digest@.subrange(0, 16) =~= digest@.take(16));
        }
        let mut index: usize = 0;
        while index < 4
            invariant
                index <= 4,
                h128 == be_value(digest@.take(16)),
                short_identifier(digest@, 0) == short_identifier(digest@, index as int),
            decreases 4 - index,
        {
            let h64: u64 = read_be_u64(digest.as_slice(), 8 * index);
            if h64 != 0 {
                return ElementHash { h128, h64 };
            }
            index = index + 1;
        }
        ElementHash { h128, h64: 1 }
    }

    /// Derives an element hash from a Matrix event ID.
    ///
    /// # Errors
    /// Returns an error when the ID has no `$` sigil, contains invalid base64,
    /// or its decoded hash is not exactly 32 bytes (256 bits).
    pub fn from_matrix_event_id(event_id: &str, format: EventIdFormat) -> (result: Result<
        Self,
        AlgebraicError,
    >)
        ensures
            match result {
                Ok(hash) => event_digest(event_id@, format) matches Ok(digest) && hash.h128
                    == be_value(digest.take(16)) && hash.h64 == short_identifier(digest, 0),
                Err(error) => event_digest(event_id@, format) == Err::<Seq<u8>, AlgebraicError>(
                    error,
                ),
            },
    {
        match Self::matrix_event_digest32(event_id, format) {
            Ok(digest) => Ok(Self::from_digest32(digest)),
            Err(error) => Err(error),
        }
    }

    /// Derives the Matrix event-ID binding digest.
    ///
    /// # Errors
    /// Returns an error when the ID has no `$` sigil, contains invalid base64,
    /// or its decoded hash is not exactly 32 bytes.
    pub fn matrix_event_digest32(event_id: &str, format: EventIdFormat) -> (result: Result<
        [u8; 32],
        AlgebraicError,
    >)
        ensures
            digest_result(result) == event_digest(event_id@, format),
    {
        let encoded: &str = match strip_sigil(event_id) {
            Some(encoded) => encoded,
            None => return Err(AlgebraicError::InvalidEventId),
        };
        if format == EventIdFormat::Legacy {
            return Ok(sha256(event_id.as_bytes()));
        }
        if encoded.as_bytes().len() > EVENT_HASH_ENCODED_LEN {
            return Err(AlgebraicError::InvalidBase64);
        }
        if format == EventIdFormat::V3 {
            digest_from_decoded(base64_standard_decode(encoded))
        } else {
            digest_from_decoded(base64_url_decode(encoded))
        }
    }
}

/// Incrementally maintained level-0 set digest and exact element count.
#[derive(Debug, Clone, Copy, PartialEq, Eq, Structural)]
pub struct RoomAccumulator {
    pub digest: u128,
    pub count: u64,
}

impl Default for RoomAccumulator {
    fn default() -> (result: Self)
        ensures
            result.digest == 0,
            result.count == 0,
    {
        RoomAccumulator::new()
    }
}

/// An accumulator with one more element.
pub open spec fn with_element(accumulator: RoomAccumulator, hash: ElementHash) -> RoomAccumulator {
    RoomAccumulator {
        digest: accumulator.digest ^ hash.h128,
        count: (accumulator.count + 1) as u64,
    }
}

/// An accumulator with one element less.
pub open spec fn without_element(
    accumulator: RoomAccumulator,
    hash: ElementHash,
) -> RoomAccumulator {
    RoomAccumulator {
        digest: accumulator.digest ^ hash.h128,
        count: (accumulator.count - 1) as u64,
    }
}

proof fn wide_xor_laws(a: u128, b: u128, c: u128)
    by (bit_vector)
    ensures
        (a ^ b) ^ b == a,
        (a ^ b) ^ c == (a ^ c) ^ b,
{
}

/// Adding an element and removing it again restores the accumulator.
pub proof fn insert_remove_cancels(accumulator: RoomAccumulator, hash: ElementHash)
    requires
        accumulator.count < u64::MAX,
    ensures
        without_element(with_element(accumulator, hash), hash) == accumulator,
{
    wide_xor_laws(accumulator.digest, hash.h128, 0);
}

/// The order in which elements are added does not matter.
pub proof fn insert_commutes(accumulator: RoomAccumulator, a: ElementHash, b: ElementHash)
    requires
        accumulator.count < u64::MAX - 1,
    ensures
        with_element(with_element(accumulator, a), b) == with_element(
            with_element(accumulator, b),
            a,
        ),
{
    wide_xor_laws(accumulator.digest, a.h128, b.h128);
}

/// The entity tag of a digest and the sorted identifiers of its extremities.
pub open spec fn etag_text(digest: u128, sorted: Seq<Seq<char>>) -> Seq<char> {
    base64_url_text(
        be_bytes(digest as nat, 16) + sha256_bytes(string_array_bytes(sorted)).take(8),
    )
}

/// A decoded level-0 digest, or why there is none.
pub open spec fn decoded_digest(encoded: Seq<char>) -> Result<nat, AlgebraicError> {
    if encode_utf8(encoded).len() != 22 {
        Err(AlgebraicError::InvalidDigestLength)
    } else {
        match base64_url_bytes(encoded) {
            None => Err(AlgebraicError::InvalidBase64),
            Some(bytes) => Ok(be_value(bytes)),
        }
    }
}

impl RoomAccumulator {
    /// The accumulator of no elements.
    #[must_use]
    pub fn new() -> (result: Self)
        ensures
            result.digest == 0,
            result.count == 0,
    {
        RoomAccumulator { digest: 0, count: 0 }
    }

    /// The exclusive or of the elements' wide hashes.
    #[must_use]
    pub fn digest(self) -> (result: u128)
        ensures
            result == self.digest,
    {
        self.digest
    }

    /// The number of elements.
    #[must_use]
    pub fn known_event_count(self) -> (result: u64)
        ensures
            result == self.count,
    {
        self.count
    }

    /// Adds a known element.
    ///
    /// # Errors
    /// Returns [`AlgebraicError::CountOverflow`] at `u64::MAX` events.
    pub fn insert(&mut self, hash: ElementHash) -> (result: Result<(), AlgebraicError>)
        ensures
            old(self).count == u64::MAX ==> result == Err::<(), AlgebraicError>(
                AlgebraicError::CountOverflow,
            ) && *final(self) == *old(self),
            old(self).count < u64::MAX ==> result is Ok && *final(self) == with_element(
                *old(self),
                hash,
            ) && final(self).count == old(self).count + 1 && final(self).digest == old(self).digest
                ^ hash.h128,
    {
        if self.count == u64::MAX {
            return Err(AlgebraicError::CountOverflow);
        }
        self.count = self.count + 1;
        self.digest = self.digest ^ hash.h128;
        Ok(())
    }

    /// Removes a known element.
    ///
    /// # Errors
    /// Returns [`AlgebraicError::CountUnderflow`] when the accumulator is empty.
    pub fn remove(&mut self, hash: ElementHash) -> (result: Result<(), AlgebraicError>)
        ensures
            old(self).count == 0 ==> result == Err::<(), AlgebraicError>(
                AlgebraicError::CountUnderflow,
            ) && *final(self) == *old(self),
            old(self).count > 0 ==> result is Ok && *final(self) == without_element(
                *old(self),
                hash,
            ) && final(self).count == old(self).count - 1 && final(self).digest == old(self).digest
                ^ hash.h128,
    {
        if self.count == 0 {
            return Err(AlgebraicError::CountUnderflow);
        }
        self.count = self.count - 1;
        self.digest = self.digest ^ hash.h128;
        Ok(())
    }

    /// The digest in its wire form.
    #[must_use]
    pub fn encode_digest(self) -> (text: String)
        ensures
            text@ == base64_url_text(be_bytes(self.digest as nat, 16)),
            decoded_digest(text@) == Ok::<nat, AlgebraicError>(self.digest as nat),
    {
        let mut bytes: Vec<u8> = Vec::new();
        push_be(&mut bytes, self.digest, 16);
        proof {
            byte_range_values();
            be_value_of_bytes(self.digest as nat, 16);
            assert(bytes@ =~= be_bytes(self.digest as nat, 16));
        }
        base64_url_encode(bytes.as_slice())
    }

    /// Decodes a level-0 digest.
    ///
    /// # Errors
    /// Returns an error for invalid base64 or any decoded length other than 16 bytes.
    pub fn decode_digest(encoded: &str) -> (result: Result<u128, AlgebraicError>)
        ensures
            match result {
                Ok(digest) => decoded_digest(encoded@) == Ok::<nat, AlgebraicError>(digest as nat),
                Err(error) => decoded_digest(encoded@) == Err::<nat, AlgebraicError>(error),
            },
    {
        if encoded.as_bytes().len() != 22 {
            return Err(AlgebraicError::InvalidDigestLength);
        }
        match base64_url_decode(encoded) {
            None => Err(AlgebraicError::InvalidBase64),
            Some(bytes) => {
                proof {
                    assert(bytes@.subrange(0, 16) =~= bytes@);
                }
                Ok(read_be_u128(bytes.as_slice(), 0))
            },
        }
    }

    /// The exclusive or of two digests.
    #[must_use]
    pub fn residual(self, other: Self) -> (result: u128)
        ensures
            result == self.digest ^ other.digest,
    {
        self.digest ^ other.digest
    }

    /// Computes the unquoted opaque value for the HTTP `ETag`.
    #[must_use]
    pub fn etag(self, extremity_event_ids: &[&str]) -> (text: String)
        ensures
            text@ == etag_text(self.digest, sorted_texts(contents(extremity_event_ids@))),
    {
        let extremities: Vec<&str> = sort_texts(extremity_event_ids);
        let canonical: Vec<u8> = json_array(&extremities);
        let frontier: [u8; 32] = sha256(canonical.as_slice());
        etag_from_frontier(self.digest, &frontier)
    }
}

/// The entity tag of a digest and the hash of its sorted extremities.
pub fn etag_from_frontier(digest: u128, frontier: &[u8; 32]) -> (text: String)
    ensures
        text@ == base64_url_text(be_bytes(digest as nat, 16) + frontier@.take(8)),
{
    let mut bytes: Vec<u8> = Vec::new();
    push_be(&mut bytes, digest, 16);
    let mut index: usize = 0;
    proof {
        be_bytes_len(digest as nat, 16);
    }
    while index < 8
        invariant
            index <= 8,
            be_bytes(digest as nat, 16).len() == 16,
            bytes@ =~= be_bytes(digest as nat, 16) + frontier@.take(index as int),
        decreases 8 - index,
    {
        bytes.push(frontier[index]);
        index = index + 1;
    }
    base64_url_encode(bytes.as_slice())
}

/// The entity tag does not depend on the order in which extremities are listed.
pub proof fn etag_order_independent(
    digest: u128,
    left: Seq<Seq<char>>,
    right: Seq<Seq<char>>,
)
    requires
        left.to_multiset() == right.to_multiset(),
    ensures
        etag_text(digest, sorted_texts(left)) == etag_text(digest, sorted_texts(right)),
{
    crate::bytes::text_order_total();
    right.lemma_sort_by_ensures(crate::bytes::text_order());
    sorted_texts_unique(left, sorted_texts(right));
}

/// The exclusive or of the wide hashes of the first `n` elements.
pub open spec fn wide_sum(hashes: Seq<ElementHash>, n: nat) -> u128
    decreases n,
{
    if n == 0 {
        0
    } else {
        wide_sum(hashes, (n - 1) as nat) ^ hashes[n - 1].h128
    }
}

/// Checks decoded difference identifiers against the 128-bit integrity residual.
#[must_use]
pub fn verify_residual(expected_residual: u128, hashes: &[ElementHash]) -> (result: bool)
    ensures
        result == (wide_sum(hashes@, hashes@.len()) == expected_residual),
{
    let mut residual: u128 = 0;
    let mut index: usize = 0;
    while index < hashes.len()
        invariant
            index <= hashes.len(),
            residual == wide_sum(hashes@, index as nat),
        decreases hashes.len() - index,
    {
        residual = residual ^ hashes[index].h128;
        index = index + 1;
    }
    residual == expected_residual
}

/// Odd syndrome coordinates `s1, s3, ... s(2k-1)` over the binary field.
#[derive(Debug, Clone, PartialEq, Eq)]
pub struct SyndromeSketch {
    pub coordinates: Vec<u64>,
}

/// Coordinates with an element toggled.
pub open spec fn toggled(coordinates: Seq<u64>, value: u64) -> Seq<u64> {
    Seq::new(coordinates.len(), |i: int| coordinates[i] ^ power(value, (2 * i + 1) as nat))
}

/// The sum of two lists of coordinates.
pub open spec fn coordinate_sum(a: Seq<u64>, b: Seq<u64>) -> Seq<u64> {
    Seq::new(a.len(), |i: int| a[i] ^ b[i])
}

/// Coordinates as bytes, each least significant byte first.
pub open spec fn coordinate_bytes(coordinates: Seq<u64>) -> Seq<u8>
    decreases coordinates.len(),
{
    if coordinates.len() == 0 {
        Seq::empty()
    } else {
        coordinate_bytes(coordinates.drop_last()) + le_bytes(coordinates.last() as nat, 8)
    }
}

/// The coordinates in a byte string.
pub open spec fn parsed_coordinates(bytes: Seq<u8>, n: nat) -> Seq<u64> {
    Seq::new(n, |i: int| le_value(bytes.subrange(8 * i, 8 * i + 8)) as u64)
}

/// The coordinates in a text, or why there are none.
pub open spec fn decoded_sketch(capacity: usize, encoded: Seq<char>) -> Result<
    Seq<u64>,
    AlgebraicError,
> {
    if capacity == 0 || capacity > MAX_SKETCH_CAPACITY {
        Err(AlgebraicError::InvalidSketchCapacity)
    } else if encode_utf8(encoded).len() != unpadded_len(8 * capacity as nat) {
        Err(AlgebraicError::InvalidSketchLength)
    } else {
        match base64_url_bytes(encoded) {
            None => Err(AlgebraicError::InvalidBase64),
            Some(bytes) => Ok(parsed_coordinates(bytes, capacity as nat)),
        }
    }
}

/// Coordinates take eight bytes each, and can be read back from them.
pub proof fn coordinate_bytes_facts(coordinates: Seq<u64>)
    ensures
        coordinate_bytes(coordinates).len() == 8 * coordinates.len(),
        parsed_coordinates(coordinate_bytes(coordinates), coordinates.len()) =~= coordinates,
    decreases coordinates.len(),
{
    if coordinates.len() > 0 {
        let init = coordinates.drop_last();
        let last = coordinates.last();
        coordinate_bytes_facts(init);
        byte_range_values();
        le_value_of_bytes(last as nat, 8);
        let all = coordinate_bytes(coordinates);
        let head = coordinate_bytes(init);
        let parsed = parsed_coordinates(all, coordinates.len());
        assert forall|i: int| 0 <= i < coordinates.len() implies parsed[i] == coordinates[i] by {
            if i < init.len() {
                assert(all.subrange(8 * i, 8 * i + 8) =~= head.subrange(8 * i, 8 * i + 8));
                assert(parsed_coordinates(head, init.len())[i] == init[i]);
            } else {
                assert(all.subrange(8 * i, 8 * i + 8) =~= le_bytes(last as nat, 8));
            }
        }
    }
}

/// Toggling an element twice changes nothing.
pub proof fn toggle_cancels(coordinates: Seq<u64>, value: u64)
    ensures
        toggled(toggled(coordinates, value), value) =~= coordinates,
{
    assert forall|i: int| 0 <= i < coordinates.len() implies toggled(
        toggled(coordinates, value),
        value,
    )[i] == coordinates[i] by {
        xor_cancel(coordinates[i], power(value, (2 * i + 1) as nat));
    }
}

/// The order in which elements are toggled does not matter.
pub proof fn toggle_commutes(coordinates: Seq<u64>, a: u64, b: u64)
    ensures
        toggled(toggled(coordinates, a), b) =~= toggled(toggled(coordinates, b), a),
{
    assert forall|i: int| 0 <= i < coordinates.len() implies toggled(toggled(coordinates, a), b)[i]
        == toggled(toggled(coordinates, b), a)[i] by {
        let k = (2 * i + 1) as nat;
        xor_assoc(coordinates[i], power(a, k), power(b, k));
        xor_comm(power(a, k), power(b, k));
        xor_assoc(coordinates[i], power(b, k), power(a, k));
    }
}

/// Toggling an element into the sketch of a list gives the sketch of the
/// longer list.
pub proof fn toggle_extends(vs: Seq<u64>, coordinates: Seq<u64>, value: u64)
    requires
        sketch_of(vs, coordinates),
    ensures
        sketch_of(vs.push(value), toggled(coordinates, value)),
{
    assert(vs.push(value).drop_last() =~= vs);
    assert forall|i: int| 0 <= i < coordinates.len() implies #[trigger] toggled(
        coordinates,
        value,
    )[i] == power_sum(vs.push(value), (2 * i + 1) as nat) by {
        assert(coordinates[i] == power_sum(vs, (2 * i + 1) as nat));
    }
}

/// A power sum of a list in which pairs of equal elements have cancelled.
pub open spec fn cancelled(vs: Seq<u64>) -> Seq<u64>
    decreases vs.len(),
{
    if vs.len() == 0 {
        vs
    } else {
        let init = cancelled(vs.drop_last());
        if init.contains(vs.last()) {
            init.remove(init.index_of(vs.last()))
        } else {
            init.push(vs.last())
        }
    }
}

proof fn power_sum_removed(vs: Seq<u64>, i: int, k: nat)
    requires
        0 <= i < vs.len(),
    ensures
        power_sum(vs.remove(i), k) == power_sum(vs, k) ^ power(vs[i], k),
    decreases vs.len(),
{
    let init = vs.drop_last();
    let last = vs.last();
    if i == vs.len() - 1 {
        assert(vs.remove(i) =~= init);
        xor_cancel(power_sum(init, k), power(last, k));
    } else {
        power_sum_removed(init, i, k);
        assert(vs.remove(i).drop_last() =~= init.remove(i));
        assert(vs.remove(i).last() == last);
        let p = power_sum(init, k);
        let a = power(vs[i], k);
        let b = power(last, k);
        xor_assoc(p, a, b);
        xor_comm(a, b);
        xor_assoc(p, b, a);
    }
}

/// Cancelling pairs leaves distinct elements with the same power sums.
pub proof fn cancelled_facts(vs: Seq<u64>)
    ensures
        cancelled(vs).no_duplicates(),
        cancelled(vs).len() <= vs.len(),
        forall|x: u64| cancelled(vs).contains(x) ==> vs.contains(x),
        cancelled(vs).len() == vs.len() ==> cancelled(vs) == vs,
        forall|k: nat| #[trigger] power_sum(cancelled(vs), k) == power_sum(vs, k),
    decreases vs.len(),
{
    if vs.len() > 0 {
        let init = vs.drop_last();
        let last = vs.last();
        cancelled_facts(init);
        let c = cancelled(init);
        let d = cancelled(vs);
        assert(vs =~= init.push(last));
        if c.contains(last) {
            let i = c.index_of(last);
            assert(0 <= i < c.len() && c[i] == last) by {
                let j = choose|j: int| 0 <= j < c.len() && c[j] == last;
                assert(c[j] == last);
            }
            assert(d =~= c.remove(i));
            assert forall|x: u64| d.contains(x) implies vs.contains(x) by {
                let j = choose|j: int| 0 <= j < d.len() && d[j] == x;
                let m = if j < i {
                    j
                } else {
                    j + 1
                };
                assert(c[m] == x);
                assert(init.contains(x));
                let n = choose|n: int| 0 <= n < init.len() && init[n] == x;
                assert(vs[n] == x);
            }
            assert forall|k: nat| #[trigger] power_sum(d, k) == power_sum(vs, k) by {
                power_sum_removed(c, i, k);
                assert(power_sum(c, k) == power_sum(init, k));
            }
            assert(d.no_duplicates()) by {
                assert forall|a: int, b: int|
                    0 <= a < d.len() && 0 <= b < d.len() && a != b implies d[a] != d[b] by {
                    let m = if a < i {
                        a
                    } else {
                        a + 1
                    };
                    let n = if b < i {
                        b
                    } else {
                        b + 1
                    };
                    assert(c[m] == d[a] && c[n] == d[b] && m != n);
                }
            }
        } else {
            assert(d =~= c.push(last));
            assert forall|x: u64| d.contains(x) implies vs.contains(x) by {
                let j = choose|j: int| 0 <= j < d.len() && d[j] == x;
                if j < c.len() {
                    assert(c[j] == x);
                    assert(init.contains(x));
                    let n = choose|n: int| 0 <= n < init.len() && init[n] == x;
                    assert(vs[n] == x);
                } else {
                    assert(vs[vs.len() - 1] == x);
                }
            }
            assert forall|k: nat| #[trigger] power_sum(d, k) == power_sum(vs, k) by {
                assert(d.drop_last() =~= c);
                assert(power_sum(c, k) == power_sum(init, k));
            }
            assert(d.no_duplicates()) by {
                assert forall|a: int, b: int|
                    0 <= a < d.len() && 0 <= b < d.len() && a != b implies d[a] != d[b] by {
                    if a < c.len() {
                        assert(c.contains(c[a]));
                    }
                    if b < c.len() {
                        assert(c.contains(c[b]));
                    }
                }
            }
        }
    }
}

/// A list and its cancelled form have the same sketch.
pub proof fn cancelled_sketch(vs: Seq<u64>, coordinates: Seq<u64>)
    requires
        sketch_of(vs, coordinates),
    ensures
        sketch_of(cancelled(vs), coordinates),
{
    cancelled_facts(vs);
    assert forall|i: int| 0 <= i < coordinates.len() implies #[trigger] coordinates[i] == power_sum(
        cancelled(vs),
        (2 * i + 1) as nat,
    ) by {
        assert(power_sum(cancelled(vs), (2 * i + 1) as nat) == power_sum(
            vs,
            (2 * i + 1) as nat,
        ));
    }
}

/// The sum of two sketches is the sketch of both lists together. The elements
/// that occur in both cancel.
pub proof fn subtract_sketches(vs: Seq<u64>, ws: Seq<u64>, a: Seq<u64>, b: Seq<u64>)
    requires
        sketch_of(vs, a),
        sketch_of(ws, b),
        a.len() == b.len(),
    ensures
        sketch_of(vs + ws, coordinate_sum(a, b)),
        sketch_of(cancelled(vs + ws), coordinate_sum(a, b)),
{
    assert forall|i: int| 0 <= i < a.len() implies #[trigger] coordinate_sum(a, b)[i] == power_sum(
        vs + ws,
        (2 * i + 1) as nat,
    ) by {
        assert(a[i] == power_sum(vs, (2 * i + 1) as nat));
        assert(b[i] == power_sum(ws, (2 * i + 1) as nat));
        power_sum_concat(vs, ws, (2 * i + 1) as nat);
    }
    cancelled_sketch(vs + ws, coordinate_sum(a, b));
}

proof fn power_sum_concat(vs: Seq<u64>, ws: Seq<u64>, k: nat)
    ensures
        power_sum(vs + ws, k) == power_sum(vs, k) ^ power_sum(ws, k),
    decreases ws.len(),
{
    if ws.len() == 0 {
        assert(vs + ws =~= vs);
        xor_zero(power_sum(vs, k));
    } else {
        power_sum_concat(vs, ws.drop_last(), k);
        assert((vs + ws).drop_last() =~= vs + ws.drop_last());
        assert((vs + ws).last() == ws.last());
        xor_assoc(power_sum(vs, k), power_sum(ws.drop_last(), k), power(ws.last(), k));
    }
}

/// The elements of two lists that cancelling leaves are their symmetric
/// difference, where neither list repeats an element.
pub proof fn cancelled_is_symmetric_difference(vs: Seq<u64>, ws: Seq<u64>, x: u64)
    requires
        vs.no_duplicates(),
        ws.no_duplicates(),
    ensures
        cancelled(vs + ws).contains(x) <==> (vs.contains(x) != ws.contains(x)),
    decreases ws.len(),
{
    if ws.len() == 0 {
        assert(vs + ws =~= vs);
        cancelled_distinct(vs);
    } else {
        let init = ws.drop_last();
        let last = ws.last();
        let all = vs + ws;
        assert(init.no_duplicates());
        cancelled_is_symmetric_difference(vs, init, x);
        cancelled_is_symmetric_difference(vs, init, last);
        cancelled_facts(vs + init);
        assert(all.drop_last() =~= vs + init);
        assert(all.last() == last);
        let c = cancelled(vs + init);
        let d = cancelled(all);
        assert(ws.contains(x) <==> init.contains(x) || x == last) by {
            if ws.contains(x) {
                let i = choose|i: int| 0 <= i < ws.len() && ws[i] == x;
                if i < init.len() {
                    assert(init[i] == x);
                }
            }
            if init.contains(x) {
                let i = choose|i: int| 0 <= i < init.len() && init[i] == x;
                assert(ws[i] == x);
            }
            assert(ws[ws.len() - 1] == last);
        }
        assert(!init.contains(last)) by {
            if init.contains(last) {
                let i = choose|i: int| 0 <= i < init.len() && init[i] == last;
                assert(ws[i] == ws[ws.len() - 1]);
            }
        }
        if c.contains(last) {
            let i = c.index_of(last);
            assert(0 <= i < c.len() && c[i] == last) by {
                let j = choose|j: int| 0 <= j < c.len() && c[j] == last;
                assert(c[j] == last);
            }
            assert(d =~= c.remove(i));
            if d.contains(x) {
                let j = choose|j: int| 0 <= j < d.len() && d[j] == x;
                let m = if j < i {
                    j
                } else {
                    j + 1
                };
                assert(c[m] == x && m != i);
            }
            if c.contains(x) && x != last {
                let m = choose|m: int| 0 <= m < c.len() && c[m] == x;
                let j = if m < i {
                    m
                } else {
                    m - 1
                };
                assert(d[j] == x);
            }
        } else {
            assert(d =~= c.push(last));
            assert(d[c.len() as int] == last);
            if c.contains(x) {
                let m = choose|m: int| 0 <= m < c.len() && c[m] == x;
                assert(d[m] == x);
            }
            if d.contains(x) {
                let j = choose|j: int| 0 <= j < d.len() && d[j] == x;
                if j < c.len() {
                    assert(c[j] == x);
                }
            }
        }
    }
}

/// Distinct elements do not cancel.
proof fn cancelled_distinct(vs: Seq<u64>)
    requires
        vs.no_duplicates(),
    ensures
        cancelled(vs) == vs,
    decreases vs.len(),
{
    if vs.len() > 0 {
        let init = vs.drop_last();
        assert(init.no_duplicates());
        cancelled_distinct(init);
        assert(!init.contains(vs.last())) by {
            if init.contains(vs.last()) {
                let i = choose|i: int| 0 <= i < init.len() && init[i] == vs.last();
                assert(vs[i] == vs[vs.len() - 1]);
            }
        }
        assert(vs =~= init.push(vs.last()));
    }
}

/// The capacity is one that the profile admits.
pub open spec fn valid_capacity(capacity: usize) -> bool {
    0 < capacity <= MAX_SKETCH_CAPACITY
}

/// A result of decoding, for a sketch of valid capacity and an admissible bound.
pub open spec fn decodes(
    coordinates: Seq<u64>,
    max_elements: usize,
    result: Result<Vec<u64>, AlgebraicError>,
) -> bool {
    match result {
        Ok(elements) => {
            &&& element_set(elements@)
            &&& ascending(elements@)
            &&& elements.len() <= max_elements
            &&& sketch_of(elements@, coordinates)
            &&& !exhausts(coordinates.take(max_elements as int), max_elements)
        },
        Err(AlgebraicError::DecodeFailure) => {
            &&& forall|vs: Seq<u64>|
                element_set(vs) && vs.len() <= max_elements ==> !(#[trigger] sketch_of(
                    vs,
                    coordinates,
                ))
            &&& !exhausts(coordinates.take(max_elements as int), max_elements)
        },
        Err(AlgebraicError::BudgetExhausted) => max_elements > 16 && exhausts(
            coordinates.take(max_elements as int),
            max_elements,
        ),
        Err(_) => false,
    }
}

impl SyndromeSketch {
    /// Wraps coordinates whose number is a valid capacity.
    ///
    /// # Errors
    /// Returns an error for no coordinates or more than the profile maximum.
    pub fn from_coordinates(coordinates: Vec<u64>) -> (result: Result<Self, AlgebraicError>)
        ensures
            match result {
                Ok(sketch) => valid_capacity(coordinates.len()) && sketch.coordinates
                    == coordinates,
                Err(error) => !valid_capacity(coordinates.len()) && error
                    == AlgebraicError::InvalidSketchCapacity,
            },
    {
        if coordinates.len() == 0 || coordinates.len() > MAX_SKETCH_CAPACITY {
            return Err(AlgebraicError::InvalidSketchCapacity);
        }
        Ok(SyndromeSketch { coordinates })
    }

    /// Allocates an empty sketch with the requested extraction capacity.
    ///
    /// # Errors
    /// Returns an error for zero capacity or capacity above the profile maximum.
    pub fn new(capacity: usize) -> (result: Result<Self, AlgebraicError>)
        ensures
            match result {
                Ok(sketch) => valid_capacity(capacity) && sketch.coordinates@ == zeros(
                    capacity as nat,
                ) && sketch_of(Seq::empty(), sketch.coordinates@),
                Err(error) => !valid_capacity(capacity) && error
                    == AlgebraicError::InvalidSketchCapacity,
            },
    {
        if capacity == 0 || capacity > MAX_SKETCH_CAPACITY {
            return Err(AlgebraicError::InvalidSketchCapacity);
        }
        let mut coordinates: Vec<u64> = Vec::new();
        coordinates.resize(capacity, 0);
        proof {
            assert(coordinates@ =~= zeros(capacity as nat));
        }
        Ok(SyndromeSketch { coordinates })
    }

    /// The number of elements that can be extracted.
    #[must_use]
    pub fn capacity(&self) -> (result: usize)
        ensures
            result == self.coordinates.len(),
    {
        self.coordinates.len()
    }

    /// The odd syndromes.
    #[must_use]
    pub fn coordinates(&self) -> (result: &[u64])
        ensures
            result@ == self.coordinates@,
    {
        self.coordinates.as_slice()
    }

    /// Subtracts (XORs) another sketch's coordinates from this one.
    ///
    /// # Errors
    /// Returns an error when sketch capacities differ.
    pub fn xor(&mut self, other: &Self) -> (result: Result<(), AlgebraicError>)
        ensures
            old(self).coordinates.len() != other.coordinates.len() ==> result == Err::<
                (),
                AlgebraicError,
            >(AlgebraicError::InvalidSketchLength) && *final(self) == *old(self),
            old(self).coordinates.len() == other.coordinates.len() ==> result is Ok
                && final(self).coordinates@ == coordinate_sum(
                old(self).coordinates@,
                other.coordinates@,
            ),
    {
        if self.coordinates.len() != other.coordinates.len() {
            return Err(AlgebraicError::InvalidSketchLength);
        }
        let ghost start = self.coordinates@;
        let mut index: usize = 0;
        while index < self.coordinates.len()
            invariant
                index <= self.coordinates.len(),
                self.coordinates.len() == start.len(),
                start.len() == other.coordinates.len(),
                forall|i: int|
                    0 <= i < start.len() ==> #[trigger] self.coordinates@[i] == if i < index {
                        start[i] ^ other.coordinates@[i]
                    } else {
                        start[i]
                    },
            decreases self.coordinates.len() - index,
        {
            let value: u64 = self.coordinates[index] ^ other.coordinates[index];
            self.coordinates.set(index, value);
            index = index + 1;
        }
        proof {
            assert(self.coordinates@ =~= coordinate_sum(start, other.coordinates@));
        }
        Ok(())
    }

    /// Inserts or removes a short identifier. Both operations are XOR in characteristic two.
    ///
    /// # Errors
    /// Returns an error for zero, which a sketch cannot represent.
    pub fn toggle(&mut self, value: u64) -> (result: Result<(), AlgebraicError>)
        ensures
            value == 0 ==> result == Err::<(), AlgebraicError>(
                AlgebraicError::ZeroShortIdentifier,
            ) && *final(self) == *old(self),
            value != 0 ==> result is Ok && final(self).coordinates@ == toggled(
                old(self).coordinates@,
                value,
            ),
    {
        if value == 0 {
            return Err(AlgebraicError::ZeroShortIdentifier);
        }
        let ghost start = self.coordinates@;
        let squared: u64 = gf64_mul(value, value);
        let mut odd_power: u64 = value;
        let mut index: usize = 0;
        proof {
            reveal_with_fuel(power, 2);
            product_one(value);
        }
        while index < self.coordinates.len()
            invariant
                index <= self.coordinates.len(),
                self.coordinates.len() == start.len(),
                squared == square(value),
                odd_power == power(value, (2 * index + 1) as nat),
                forall|i: int|
                    0 <= i < start.len() ==> #[trigger] self.coordinates@[i] == if i < index {
                        start[i] ^ power(value, (2 * i + 1) as nat)
                    } else {
                        start[i]
                    },
            decreases self.coordinates.len() - index,
        {
            let updated: u64 = self.coordinates[index] ^ odd_power;
            self.coordinates.set(index, updated);
            proof {
                power_add(value, (2 * index + 1) as nat, 2);
                reveal_with_fuel(power, 3);
                product_one(value);
            }
            odd_power = gf64_mul(odd_power, squared);
            index = index + 1;
        }
        proof {
            assert(self.coordinates@ =~= toggled(start, value));
        }
        Ok(())
    }

    /// Decodes up to `max_elements` from this residual sketch.
    ///
    /// # Errors
    /// Returns [`AlgebraicError::DecodeFailure`] when the residual exceeds the
    /// bound, is malformed, or does not factor into distinct field elements.
    /// Returns [`AlgebraicError::InvalidSketchCapacity`] when `max_elements`
    /// exceeds the sketch capacity or the local decode policy, and
    /// [`AlgebraicError::BudgetExhausted`] when root finding reaches its work limit.
    pub fn decode_elements(&self, max_elements: usize) -> (result: Result<Vec<u64>, AlgebraicError>)
        ensures
            max_elements == 0 || max_elements > self.coordinates.len() || max_elements
                > MAX_LOCAL_SKETCH_DECODE_CAPACITY ==> result == Err::<Vec<u64>, AlgebraicError>(
                AlgebraicError::InvalidSketchCapacity,
            ),
            0 < max_elements <= self.coordinates.len() && self.coordinates.len()
                <= MAX_SKETCH_CAPACITY ==> decodes(self.coordinates@, max_elements, result),
    {
        if max_elements == 0 || max_elements > self.coordinates.len() || max_elements
            > MAX_LOCAL_SKETCH_DECODE_CAPACITY {
            return Err(AlgebraicError::InvalidSketchCapacity);
        }
        let ghost coordinates = self.coordinates@;
        let prefix: &[u64] = vstd::slice::slice_subrange(
            self.coordinates.as_slice(),
            0,
            max_elements,
        );
        proof {
            bounds_for_sketches();
            assert forall|vs: Seq<u64>| #[trigger] sketch_of(vs, coordinates) implies sketch_of(
                vs,
                prefix@,
            ) by {
                assert forall|i: int| 0 <= i < prefix@.len() implies #[trigger] prefix@[i]
                    == power_sum(vs, (2 * i + 1) as nat) by {
                    assert(coordinates[i] == power_sum(vs, (2 * i + 1) as nat));
                }
            }
            if max_elements <= 16 {
                sufficient_below(max_elements as nat);
            }
            decode_cost_fits(max_elements as nat);
        }
        proof {
            assert(prefix@ =~= coordinates.take(max_elements as int));
        }
        match super::pinsketch::decode(prefix, max_elements) {
            Ok(decoded) => {
                let ghost candidate = decoded@;
                let result: Result<Vec<u64>, AlgebraicError> = self.validate_decoded_elements(
                    decoded,
                );
                proof {
                    success_excludes(prefix@, max_elements, candidate);
                    if sketch_of(candidate, coordinates) {
                        cancelled_facts(candidate);
                        cancelled_sketch(candidate, coordinates);
                        let vs = cancelled(candidate);
                        assert(element_set(vs));
                        assert(sketch_of(vs, prefix@));
                        assert(candidate.to_multiset() =~= vs.to_multiset());
                        vstd::seq_lib::to_multiset_len(candidate);
                        vstd::seq_lib::to_multiset_len(vs);
                    } else {
                        assert forall|vs: Seq<u64>|
                            element_set(vs) && vs.len() <= max_elements implies !(
                        #[trigger] sketch_of(vs, coordinates)) by {
                            if sketch_of(vs, coordinates) {
                                assert(sketch_of(vs, prefix@));
                                power_sums_permuted(candidate, vs, coordinates);
                            }
                        }
                    }
                }
                result
            },
            Err(error) => {
                proof {
                    if error == AlgebraicError::DecodeFailure {
                        failure_excludes(prefix@, max_elements);
                    }
                }
                Err(error)
            },
        }
    }

    /// Accepts decoded elements that reproduce this sketch.
    ///
    /// # Errors
    /// Returns [`AlgebraicError::DecodeFailure`] for elements that do not, and
    /// [`AlgebraicError::InvalidSketchCapacity`] for a sketch of invalid capacity.
    pub fn validate_decoded_elements(&self, decoded: Vec<u64>) -> (result: Result<
        Vec<u64>,
        AlgebraicError,
    >)
        ensures
            match result {
                Ok(elements) => elements == decoded && !decoded@.contains(0) && sketch_of(
                    decoded@,
                    self.coordinates@,
                ) && valid_capacity(self.coordinates.len()),
                Err(AlgebraicError::DecodeFailure) => decoded@.contains(0) || (valid_capacity(
                    self.coordinates.len(),
                ) && !sketch_of(decoded@, self.coordinates@)),
                Err(error) => error == AlgebraicError::InvalidSketchCapacity && !decoded@.contains(
                    0,
                ) && !valid_capacity(self.coordinates.len()),
            },
    {
        let mut index: usize = 0;
        while index < decoded.len()
            invariant
                index <= decoded.len(),
                forall|i: int| 0 <= i < index ==> decoded@[i] != 0,
            decreases decoded.len() - index,
        {
            if decoded[index] == 0 {
                return Err(AlgebraicError::DecodeFailure);
            }
            index = index + 1;
        }
        let mut check: SyndromeSketch = match Self::new(self.coordinates.len()) {
            Ok(check) => check,
            Err(error) => return Err(error),
        };
        let mut done: usize = 0;
        proof {
            assert(decoded@.take(0) =~= Seq::<u64>::empty());
        }
        while done < decoded.len()
            invariant
                done <= decoded.len(),
                check.coordinates.len() == self.coordinates.len(),
                forall|i: int| 0 <= i < decoded.len() ==> decoded@[i] != 0,
                sketch_of(decoded@.take(done as int), check.coordinates@),
            decreases decoded.len() - done,
        {
            let ghost before = check.coordinates@;
            match check.toggle(decoded[done]) {
                Ok(_) => {},
                Err(error) => return Err(error),
            }
            proof {
                toggle_extends(decoded@.take(done as int), before, decoded@[done as int]);
                assert(decoded@.take(done + 1) =~= decoded@.take(done as int).push(
                    decoded@[done as int],
                ));
            }
            done = done + 1;
        }
        proof {
            assert(decoded@.take(done as int) =~= decoded@);
        }
        let mut place: usize = 0;
        while place < self.coordinates.len()
            invariant
                place <= self.coordinates.len(),
                check.coordinates.len() == self.coordinates.len(),
                valid_capacity(self.coordinates.len()),
                sketch_of(decoded@, check.coordinates@),
                forall|i: int|
                    0 <= i < place ==> check.coordinates@[i] == self.coordinates@[i],
            decreases self.coordinates.len() - place,
        {
            if check.coordinates[place] != self.coordinates[place] {
                proof {
                    assert(check.coordinates@[place as int] == power_sum(
                        decoded@,
                        (2 * place + 1) as nat,
                    ));
                    if sketch_of(decoded@, self.coordinates@) {
                        assert(self.coordinates@[place as int] == power_sum(
                            decoded@,
                            (2 * place + 1) as nat,
                        ));
                    }
                }
                return Err(AlgebraicError::DecodeFailure);
            }
            place = place + 1;
        }
        proof {
            assert(check.coordinates@ =~= self.coordinates@);
        }
        Ok(decoded)
    }

    /// XOR-subtracts another sketch.
    ///
    /// # Errors
    /// Returns an error when sketch capacities differ.
    pub fn subtract(&self, other: &Self) -> (result: Result<Self, AlgebraicError>)
        ensures
            match result {
                Ok(sketch) => self.coordinates.len() == other.coordinates.len()
                    && sketch.coordinates@ == coordinate_sum(self.coordinates@, other.coordinates@),
                Err(error) => self.coordinates.len() != other.coordinates.len() && error
                    == AlgebraicError::InvalidSketchLength,
            },
    {
        if self.coordinates.len() != other.coordinates.len() {
            return Err(AlgebraicError::InvalidSketchLength);
        }
        let mut coordinates: Vec<u64> = Vec::new();
        let mut index: usize = 0;
        while index < self.coordinates.len()
            invariant
                index <= self.coordinates.len(),
                self.coordinates.len() == other.coordinates.len(),
                coordinates.len() == index,
                forall|i: int|
                    0 <= i < index ==> #[trigger] coordinates@[i] == self.coordinates@[i]
                        ^ other.coordinates@[i],
            decreases self.coordinates.len() - index,
        {
            coordinates.push(self.coordinates[index] ^ other.coordinates[index]);
            index = index + 1;
        }
        proof {
            assert(coordinates@ =~= coordinate_sum(self.coordinates@, other.coordinates@));
        }
        Ok(SyndromeSketch { coordinates })
    }

    /// The sketch in its wire form.
    #[must_use]
    pub fn encode(&self) -> (text: String)
        requires
            64 * self.coordinates.len() <= usize::MAX,
        ensures
            text@ == base64_url_text(coordinate_bytes(self.coordinates@)),
            valid_capacity(self.coordinates.len()) ==> decoded_sketch(
                self.coordinates.len(),
                text@,
            ) == Ok::<Seq<u64>, AlgebraicError>(self.coordinates@),
    {
        let mut bytes: Vec<u8> = Vec::new();
        let mut index: usize = 0;
        proof {
            assert(self.coordinates@.take(0) =~= Seq::<u64>::empty());
        }
        while index < self.coordinates.len()
            invariant
                index <= self.coordinates.len(),
                bytes@ == coordinate_bytes(self.coordinates@.take(index as int)),
            decreases self.coordinates.len() - index,
        {
            push_le(&mut bytes, self.coordinates[index] as u128, 8);
            proof {
                let next = self.coordinates@.take(index + 1);
                assert(next.drop_last() =~= self.coordinates@.take(index as int));
            }
            index = index + 1;
        }
        proof {
            assert(self.coordinates@.take(index as int) =~= self.coordinates@);
            coordinate_bytes_facts(self.coordinates@);
        }
        base64_url_encode(bytes.as_slice())
    }

    /// Decodes a sketch with an externally negotiated capacity.
    ///
    /// # Errors
    /// Returns an error for invalid capacity, base64, or encoded byte length.
    pub fn decode(capacity: usize, encoded: &str) -> (result: Result<Self, AlgebraicError>)
        ensures
            match result {
                Ok(sketch) => decoded_sketch(capacity, encoded@) == Ok::<
                    Seq<u64>,
                    AlgebraicError,
                >(sketch.coordinates@),
                Err(error) => decoded_sketch(capacity, encoded@) == Err::<
                    Seq<u64>,
                    AlgebraicError,
                >(error),
            },
    {
        if capacity == 0 || capacity > MAX_SKETCH_CAPACITY {
            return Err(AlgebraicError::InvalidSketchCapacity);
        }
        let expected: usize = (4 * (8 * capacity) + 2) / 3;
        if encoded.as_bytes().len() != expected {
            return Err(AlgebraicError::InvalidSketchLength);
        }
        match base64_url_decode(encoded) {
            None => Err(AlgebraicError::InvalidBase64),
            Some(bytes) => Self::from_encoded_bytes(capacity, bytes.as_slice()),
        }
    }

    /// Reads the coordinates from their bytes.
    ///
    /// # Errors
    /// Returns an error when there are not eight bytes per coordinate.
    pub fn from_encoded_bytes(capacity: usize, bytes: &[u8]) -> (result: Result<
        Self,
        AlgebraicError,
    >)
        ensures
            match result {
                Ok(sketch) => bytes.len() == 8 * capacity && sketch.coordinates@
                    == parsed_coordinates(bytes@, capacity as nat),
                Err(error) => bytes.len() != 8 * capacity && error
                    == AlgebraicError::InvalidSketchLength,
            },
    {
        let expected: usize = match capacity.checked_mul(8) {
            Some(expected) => expected,
            None => return Err(AlgebraicError::InvalidSketchLength),
        };
        if bytes.len() != expected {
            return Err(AlgebraicError::InvalidSketchLength);
        }
        let mut coordinates: Vec<u64> = Vec::new();
        let mut index: usize = 0;
        while index < capacity
            invariant
                index <= capacity,
                bytes.len() == 8 * capacity,
                coordinates.len() == index,
                forall|i: int|
                    0 <= i < index ==> #[trigger] coordinates@[i] == le_value(
                        bytes@.subrange(8 * i, 8 * i + 8),
                    ),
            decreases capacity - index,
        {
            coordinates.push(read_le_u64(bytes, 8 * index, 8));
            index = index + 1;
        }
        proof {
            assert(coordinates@ =~= parsed_coordinates(bytes@, capacity as nat));
        }
        Ok(SyndromeSketch { coordinates })
    }
}

/// Decoding a sketch has one result: success, a failure and a lack of work exclude
/// each other, and the elements are determined.
pub proof fn sketch_decoding_determined(
    coordinates: Seq<u64>,
    max_elements: usize,
    a: Result<Vec<u64>, AlgebraicError>,
    b: Result<Vec<u64>, AlgebraicError>,
)
    requires
        max_elements <= coordinates.len(),
        decodes(coordinates, max_elements, a),
        decodes(coordinates, max_elements, b),
    ensures
        match (a, b) {
            (Ok(x), Ok(y)) => x@ == y@,
            (Err(x), Err(y)) => x == y,
            _ => false,
        },
{
    if let (Ok(x), Ok(y)) = (a, b) {
        super::pinsketch::sketch_determines_set(x@, y@, coordinates);
        super::pinsketch::ascending_unique(x@, y@);
    }
}

/// Decoding the difference of two sketches recovers the symmetric difference of
/// the two sets, where it is within the bound, unless the work budget runs out.
pub proof fn difference_decodes(
    vs: Seq<u64>,
    ws: Seq<u64>,
    a: Seq<u64>,
    b: Seq<u64>,
    max_elements: usize,
    result: Result<Vec<u64>, AlgebraicError>,
)
    requires
        element_set(vs),
        element_set(ws),
        sketch_of(vs, a),
        sketch_of(ws, b),
        a.len() == b.len(),
        cancelled(vs + ws).len() <= max_elements <= a.len(),
        decodes(coordinate_sum(a, b), max_elements, result),
    ensures
        match result {
            Ok(elements) => forall|x: u64|
                elements@.contains(x) <==> (vs.contains(x) != ws.contains(x)),
            Err(error) => error == AlgebraicError::BudgetExhausted,
        },
{
    let difference = cancelled(vs + ws);
    subtract_sketches(vs, ws, a, b);
    cancelled_facts(vs + ws);
    assert(!difference.contains(0)) by {
        if (vs + ws).contains(0) {
            let i = choose|i: int| 0 <= i < (vs + ws).len() && (vs + ws)[i] == 0;
            if i < vs.len() {
                assert(vs[i] == 0);
            } else {
                assert(ws[i - vs.len()] == 0);
            }
        }
    }
    assert(element_set(difference));
    assert(sketch_of(difference, coordinate_sum(a, b)));
    if let Ok(elements) = result {
        super::pinsketch::sketch_determines_set(elements@, difference, coordinate_sum(a, b));
        assert forall|x: u64| elements@.contains(x) <==> (vs.contains(x) != ws.contains(x)) by {
            cancelled_is_symmetric_difference(vs, ws, x);
            vstd::seq_lib::to_multiset_contains(elements@, x);
            vstd::seq_lib::to_multiset_contains(difference, x);
        }
    }
}

proof fn bounds_for_sketches()
    ensures
        4 * MAX_SKETCH_CAPACITY <= usize::MAX,
        trial_cost(32) <= usize::MAX,
{
}

/// Decoding a sketch never costs more than the machine can count.
proof fn decode_cost_fits(n: nat)
    requires
        n <= 32,
    ensures
        trial_cost(n) <= usize::MAX,
{
    assert(n * n <= 32 * 32) by (nonlinear_arith)
        requires
            0 <= n <= 32,
    ;
}

/// The work budget suffices for sixteen elements.
pub proof fn sufficient_below(n: nat)
    requires
        n <= 16,
    ensures
        sufficient_work(n) <= MAX_FACTOR_WORK,
{
    pyramid_monotone(n, 16);
    assert(square_pyramid(16) == 1491) by {
        reveal_with_fuel(square_pyramid, 17);
    }
}

/// Rearranged lists have the same sketch.
pub proof fn power_sums_permuted(a: Seq<u64>, b: Seq<u64>, coordinates: Seq<u64>)
    requires
        a.to_multiset() =~= b.to_multiset(),
        sketch_of(b, coordinates),
    ensures
        sketch_of(a, coordinates),
{
    assert forall|i: int| 0 <= i < coordinates.len() implies #[trigger] coordinates[i] == power_sum(
        a,
        (2 * i + 1) as nat,
    ) by {
        power_sum_permuted(a, b, (2 * i + 1) as nat);
        assert(coordinates[i] == power_sum(b, (2 * i + 1) as nat));
    }
}

proof fn power_sum_permuted(a: Seq<u64>, b: Seq<u64>, k: nat)
    requires
        a.to_multiset() =~= b.to_multiset(),
    ensures
        power_sum(a, k) == power_sum(b, k),
    decreases a.len(),
{
    broadcast use vstd::seq_lib::group_to_multiset_ensures;

    assert(a.len() == a.to_multiset().len() && b.len() == b.to_multiset().len());
    if a.len() > 0 {
        let r = a.last();
        let init = a.drop_last();
        assert(a =~= init.push(r));
        assert(a.to_multiset().contains(r)) by {
            assert(a[a.len() - 1] == r);
        }
        assert(b.contains(r));
        let i = choose|i: int| 0 <= i < b.len() && b[i] == r;
        let rest = b.remove(i);
        assert(rest.to_multiset() =~= b.to_multiset().remove(r));
        assert(init.to_multiset() =~= a.to_multiset().remove(r));
        power_sum_permuted(init, rest, k);
        power_sum_removed(b, i, k);
        xor_cancel(power_sum(b, k), power(r, k));
    }
}

} // verus!
