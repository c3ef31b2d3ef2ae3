//! Elements in bytes and bits: their digests, their strata and their sums.

use vstd::prelude::*;
use vstd::std_specs::bits::axiom_u64_trailing_zeros;
use vstd::utf8::encode_utf8;
use crate::bytes::{
    be_bytes_len, be_value, be_value_of_bytes, byte_range_values, le_bytes_of_value, le_value,
};
use crate::json::string_array_bytes;
use crate::primitives::{base64_standard_bytes, base64_url_bytes, base64_url_text, sha256_bytes};
use super::algebraic::{
    coordinate_bytes, coordinate_bytes_facts, decoded_digest, decoded_sketch, etag_text,
    event_digest, parsed_coordinates, short_identifier, toggled, wide_sum, AlgebraicError,
    ElementHash, EventIdFormat,
};
use super::field::power;
use super::resident::{strata_toggled, stratum_of};

verus! {

/// Every byte of the eight from the place on is zero.
pub open spec fn blank(digest: Seq<u8>, place: int) -> bool {
    forall|i: int| place <= i < place + 8 ==> #[trigger] digest[i] == 0
}

proof fn value_of_blank(bytes: Seq<u8>)
    ensures
        be_value(bytes) == 0 <==> forall|i: int| 0 <= i < bytes.len() ==> #[trigger] bytes[i] == 0,
    decreases bytes.len(),
{
    if bytes.len() > 0 {
        let init = bytes.drop_last();
        value_of_blank(init);
        if be_value(bytes) == 0 {
            assert forall|i: int| 0 <= i < bytes.len() implies #[trigger] bytes[i] == 0 by {
                if i < init.len() {
                    assert(init[i] == bytes[i]);
                }
            }
        }
        if forall|i: int| 0 <= i < bytes.len() ==> #[trigger] bytes[i] == 0 {
            assert forall|i: int| 0 <= i < init.len() implies #[trigger] init[i] == 0 by {
                assert(bytes[i] == 0);
            }
            assert(bytes[bytes.len() - 1] == 0);
        }
    }
}

/// The short identifier of a digest is its first eight bytes that are not all zero, and
/// one where every byte is zero.
pub proof fn identifier_is_first_chunk(digest: Seq<u8>, k: int)
    requires
        digest.len() == 32,
        0 <= k <= 4,
        forall|j: int| 0 <= j < k ==> blank(digest, #[trigger] (8 * j)),
        k < 4 ==> !blank(digest, 8 * k),
    ensures
        k < 4 ==> short_identifier(digest, 0) == be_value(digest.subrange(8 * k, 8 * k + 8)),
        k == 4 ==> short_identifier(digest, 0) == 1,
{
    reveal_with_fuel(short_identifier, 5);
    assert forall|j: int| 0 <= j < 4 implies (be_value(
        #[trigger] digest.subrange(8 * j, 8 * j + 8),
    ) == 0 <==> blank(digest, 8 * j)) by {
        let chunk = digest.subrange(8 * j, 8 * j + 8);
        value_of_blank(chunk);
        if be_value(chunk) == 0 {
            assert forall|i: int| 8 * j <= i < 8 * j + 8 implies #[trigger] digest[i] == 0 by {
                assert(chunk[i - 8 * j] == 0);
            }
        }
    }
    assert(8int * 0 == 0int && 8int * 1 == 8int && 8int * 2 == 16int && 8int * 3 == 24int);
    assert(k > 0 ==> blank(digest, 8int * 0));
    assert(k > 1 ==> blank(digest, 8int * 1));
    assert(k > 2 ==> blank(digest, 8int * 2));
    assert(k > 3 ==> blank(digest, 8int * 3));
    assert(be_value(digest.subrange(8int * 0, 8int * 0 + 8)) == 0 <==> blank(digest, 8int * 0));
    assert(be_value(digest.subrange(8int * 1, 8int * 1 + 8)) == 0 <==> blank(digest, 8int * 1));
    assert(be_value(digest.subrange(8int * 2, 8int * 2 + 8)) == 0 <==> blank(digest, 8int * 2));
    assert(be_value(digest.subrange(8int * 3, 8int * 3 + 8)) == 0 <==> blank(digest, 8int * 3));
}

/// An event id is a dollar sign and what follows it. In the oldest rooms its digest is
/// that of the whole id. Else it is the 32 bytes that the rest stands for, in at most 43
/// bytes of the alphabet of the format.
pub proof fn digest_by_format(id: Seq<char>, format: EventIdFormat)
    ensures
        id.len() == 0 || id[0] != '$' ==> event_digest(id, format) == Err::<
            Seq<u8>,
            AlgebraicError,
        >(AlgebraicError::InvalidEventId),
        id.len() > 0 && id[0] == '$' ==> {
            let rest = id.subrange(1, id.len() as int);
            let decoded = if format is V3 {
                base64_standard_bytes(rest)
            } else {
                base64_url_bytes(rest)
            };
            let digest = event_digest(id, format);
            &&& format is Legacy ==> digest == Ok::<Seq<u8>, AlgebraicError>(
                sha256_bytes(encode_utf8(id)),
            )
            &&& !(format is Legacy) ==> match digest {
                Ok(bytes) => encode_utf8(rest).len() <= 43 && decoded == Some(bytes)
                    && bytes.len() == 32,
                Err(AlgebraicError::InvalidBase64) => encode_utf8(rest).len() > 43
                    || decoded is None,
                Err(AlgebraicError::InvalidEventId) => encode_utf8(rest).len() <= 43 && (
                decoded matches Some(bytes) && bytes.len() != 32),
                Err(_) => false,
            }
        },
{
    assert(id.len() > 0 ==> id.skip(1) =~= id.subrange(1, id.len() as int));
}

/// An entity tag stands for the sixteen bytes of the digest, the most significant one
/// first, and eight bytes of the hash of the extremities.
pub proof fn etag_by_bytes(digest: u128, sorted: Seq<Seq<char>>)
    ensures
        exists|bytes: Seq<u8>|
            {
                &&& etag_text(digest, sorted) == #[trigger] base64_url_text(bytes)
                &&& bytes.len() >= 16
                &&& be_value(bytes.take(16)) == digest
                &&& bytes.skip(16) == sha256_bytes(string_array_bytes(sorted)).take(8)
            },
{
    let head = crate::bytes::be_bytes(digest as nat, 16);
    let tail = sha256_bytes(string_array_bytes(sorted)).take(8);
    be_bytes_len(digest as nat, 16);
    byte_range_values();
    be_value_of_bytes(digest as nat, 16);
    assert((head + tail).take(16) =~= head);
    assert((head + tail).skip(16) =~= tail);
    assert(etag_text(digest, sorted) == base64_url_text(head + tail));
}

/// The sum of no hashes is zero, that of one is its wide hash, and that of two lists is
/// the exclusive or of their sums.
pub proof fn wide_sum_of_parts(a: Seq<ElementHash>, b: Seq<ElementHash>, hash: ElementHash)
    ensures
        wide_sum(Seq::empty(), 0) == 0,
        wide_sum(seq![hash], 1) == hash.h128,
        wide_sum(a + b, (a + b).len()) == wide_sum(a, a.len()) ^ wide_sum(b, b.len()),
{
    reveal_with_fuel(wide_sum, 2);
    let wide = hash.h128;
    assert(0u128 ^ wide == wide) by (bit_vector);
    sum_from(a, b, b.len());
}

proof fn sum_prefix(a: Seq<ElementHash>, b: Seq<ElementHash>, n: nat)
    requires
        n <= a.len(),
    ensures
        wide_sum(a + b, n) == wide_sum(a, n),
    decreases n,
{
    if n > 0 {
        sum_prefix(a, b, (n - 1) as nat);
    }
}

proof fn sum_from(a: Seq<ElementHash>, b: Seq<ElementHash>, n: nat)
    requires
        n <= b.len(),
    ensures
        wide_sum(a + b, a.len() + n) == wide_sum(a, a.len()) ^ wide_sum(b, n),
    decreases n,
{
    if n == 0 {
        sum_prefix(a, b, a.len());
        let sum = wide_sum(a, a.len());
        assert(sum ^ 0u128 == sum) by (bit_vector);
    } else {
        sum_from(a, b, (n - 1) as nat);
        let (x, y, z) = (wide_sum(a, a.len()), wide_sum(b, (n - 1) as nat), b[n - 1].h128);
        assert((a + b)[a.len() + n - 1] == b[n - 1]);
        assert((x ^ y) ^ z == x ^ (y ^ z)) by (bit_vector);
    }
}

/// An identifier lies in the stratum of its trailing zero bits, and in the last one
/// where there are 31 or more.
pub proof fn stratum_by_bits(value: u64)
    ensures
        0 <= stratum_of(value) <= 31,
        forall|j: u64| 0 <= j < stratum_of(value) ==> #[trigger] (value >> j) & 1u64 == 0u64,
        stratum_of(value) < 31 ==> (value >> (stratum_of(value) as u64)) & 1u64 == 1u64,
{
    axiom_u64_trailing_zeros(value);
}

/// Toggling an identifier adds its odd powers to the stratum that it lies in, and leaves
/// every other stratum as it was.
pub proof fn toggle_by_stratum(strata: Seq<Seq<u64>>, value: u64, i: int, j: int)
    requires
        strata.len() == 32,
        0 <= i < 32,
        0 <= j < strata[i].len(),
    ensures
        strata_toggled(strata, value).len() == 32,
        strata_toggled(strata, value)[i].len() == strata[i].len(),
        strata_toggled(strata, value)[i][j] == if i == stratum_of(value) {
            strata[i][j] ^ power(value, (2 * j + 1) as nat)
        } else {
            strata[i][j]
        },
{
    axiom_u64_trailing_zeros(value);
}

/// Toggling an identifier adds its first power to the first coordinate, its third power
/// to the second one, and so on.
pub proof fn toggle_by_coordinate(coordinates: Seq<u64>, value: u64, j: int)
    requires
        0 <= j < coordinates.len(),
    ensures
        toggled(coordinates, value).len() == coordinates.len(),
        toggled(coordinates, value)[j] == coordinates[j] ^ power(value, (2 * j + 1) as nat),
{
}

/// Coordinates are written in eight bytes each, the least significant one first.
pub proof fn coordinates_as_bytes(coordinates: Seq<u64>, j: int)
    requires
        0 <= j < coordinates.len(),
    ensures
        coordinate_bytes(coordinates).len() == 8 * coordinates.len(),
        le_value(coordinate_bytes(coordinates).subrange(8 * j, 8 * j + 8)) == coordinates[j],
{
    coordinate_bytes_facts(coordinates);
    let bytes = coordinate_bytes(coordinates);
    let chunk = bytes.subrange(8 * j, 8 * j + 8);
    le_bytes_of_value(chunk);
    byte_range_values();
    assert(parsed_coordinates(bytes, coordinates.len())[j] == coordinates[j]);
}

/// A digest is read from 22 bytes that stand for its sixteen, the most significant one
/// first.
pub proof fn digest_by_bytes(encoded: Seq<char>, digest: nat)
    ensures
        decoded_digest(encoded) == Ok::<nat, AlgebraicError>(digest) <==> encode_utf8(
            encoded,
        ).len() == 22 && (base64_url_bytes(encoded) matches Some(bytes) && be_value(bytes)
            == digest),
        encode_utf8(encoded).len() != 22 <==> decoded_digest(encoded) == Err::<nat, AlgebraicError>(
            AlgebraicError::InvalidDigestLength,
        ),
{
}

/// A sketch is read from one to 32 coordinates of eight bytes each, in the Base64 text of
/// that many bytes.
pub proof fn sketch_by_bytes(capacity: usize, encoded: Seq<char>, coordinates: Seq<u64>)
    ensures
        decoded_sketch(capacity, encoded) == Ok::<Seq<u64>, AlgebraicError>(coordinates) ==> {
            &&& 1 <= capacity <= 32
            &&& 3 * encode_utf8(encoded).len() <= 32 * capacity + 2
            &&& 32 * capacity <= 3 * encode_utf8(encoded).len()
            &&& coordinates.len() == capacity
            &&& base64_url_bytes(encoded) matches Some(bytes) && coordinates == parsed_coordinates(
                bytes,
                capacity as nat,
            )
        },
        capacity < 1 || capacity > 32 <==> decoded_sketch(capacity, encoded) == Err::<
            Seq<u64>,
            AlgebraicError,
        >(AlgebraicError::InvalidSketchCapacity),
{
}

} // verus!
