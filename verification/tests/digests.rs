use rezzy::hamt::hash::StructuralHashBuilder;
use rezzy::hamt::node::{key_path_hash, structural_hash_domain};
use rezzy::hamt::state_group_id_from_lthash;
use rezzy::json::Json;
use rezzy::merkle::{component_hash, event_id, leaf_hash};
use rezzy::reconcile::xxh3::hash_bytes;
use rezzy::reconcile::{AlgebraicError, ElementHash, EventIdFormat, RoomAccumulator};
use rezzy::state::LtHash;

fn sha256(input: &[u8]) -> [u8; 32] {
    <sha2::Sha256 as sha2::Digest>::digest(input).into()
}

fn sha3(input: &[u8]) -> [u8; 32] {
    <sha3::Sha3_256 as sha3::Digest>::digest(input).into()
}

#[test]
fn legacy_ids_are_hashed_whole() {
    let digest = sha256(b"$event:example.org");
    let mut wide = [0u8; 16];
    wide.copy_from_slice(&digest[..16]);
    let mut short = [0u8; 8];
    short.copy_from_slice(&digest[..8]);
    assert_eq!(
        ElementHash::from_matrix_event_id("$event:example.org", EventIdFormat::Legacy),
        Ok(ElementHash {
            h128: u128::from_be_bytes(wide),
            h64: u64::from_be_bytes(short),
        })
    );
    assert_eq!(
        ElementHash::matrix_event_digest32("$event:example.org", EventIdFormat::Legacy),
        Ok(digest)
    );
}

#[test]
fn later_ids_carry_their_digest() {
    let digest = [0xfb_u8; 32];
    let standard = format!("${}", "+/v7".repeat(10) + "+/s");
    let url = format!("${}", "-_v7".repeat(10) + "-_s");
    assert_eq!(
        ElementHash::matrix_event_digest32(&standard, EventIdFormat::V3),
        Ok(digest)
    );
    assert_eq!(
        ElementHash::matrix_event_digest32(&url, EventIdFormat::V4Plus),
        Ok(digest)
    );
    // The two alphabets are not interchangeable.
    assert!(ElementHash::matrix_event_digest32(&standard, EventIdFormat::V4Plus).is_err());
    assert!(ElementHash::matrix_event_digest32(&url, EventIdFormat::V3).is_err());
}

#[test]
fn ids_without_a_sigil_are_refused() {
    assert_eq!(
        ElementHash::from_matrix_event_id("event", EventIdFormat::Legacy),
        Err(AlgebraicError::InvalidEventId)
    );
    assert_eq!(
        ElementHash::from_matrix_event_id("", EventIdFormat::Legacy),
        Err(AlgebraicError::InvalidEventId)
    );
}

#[test]
fn a_digest_of_zeros_has_one_as_its_short_identifier() {
    let hash = ElementHash::from_digest32([0; 32]);
    assert_eq!(hash, ElementHash { h128: 0, h64: 1 });
    let mut digest = [0u8; 32];
    digest[15] = 7;
    assert_eq!(
        ElementHash::from_digest32(digest),
        ElementHash { h128: 7, h64: 7 }
    );
}

#[test]
fn accumulator_digests_are_base64() {
    let mut accumulator = RoomAccumulator::new();
    accumulator
        .insert(ElementHash { h128: u128::MAX, h64: 5 })
        .unwrap();
    assert_eq!(accumulator.encode_digest(), "_____________________w");
    assert_eq!(
        RoomAccumulator::decode_digest("_____________________w"),
        Ok(u128::MAX)
    );
    assert!(RoomAccumulator::decode_digest("not base64!").is_err());
    assert!(RoomAccumulator::decode_digest("AAAA").is_err());
}

#[test]
fn xxh3_of_nothing() {
    assert_eq!(hash_bytes(b""), 0x99aa_06d3_0147_98d8_6001_c324_468d_497f);
}

#[test]
fn leaf_hashes_are_sha3_over_a_domain() {
    let mut input = b"msc4511:leaf:v1".to_vec();
    input.extend_from_slice(b"sender\0\"x\"");
    assert_eq!(leaf_hash("sender", b"\"x\""), Ok(sha3(&input)));
    assert_eq!(
        component_hash("sender", &Json::Text("x".to_string())),
        Ok(sha3(&input))
    );
}

#[test]
fn event_ids_are_url_safe() {
    assert_eq!(
        event_id([0xff; 32]),
        "$__________________________________________8"
    );
}

#[test]
fn structural_hashes_are_blake2b_over_key_and_data() {
    let mut input = 3_u64.to_le_bytes().to_vec();
    input.extend_from_slice(b"keydata");
    let wide: [u8; 64] = <blake2::Blake2b512 as blake2::Digest>::digest(&input).into();
    let mut builder = StructuralHashBuilder::new(b"key");
    builder.write(b"da");
    builder.write(b"ta");
    assert_eq!(builder.finalize(), wide[..32]);
    assert_eq!(structural_hash_domain(), b"hamt/n1");

    let mut builder = StructuralHashBuilder::new(b"key");
    builder.write(&7_u64.to_le_bytes());
    assert_eq!(key_path_hash(b"key", &7_u64), builder.finalize());
}

#[test]
fn group_ids_are_blake2b_over_the_lattice() {
    let mut lattice = LtHash::default();
    lattice.0[0] = 0x0201;
    let mut input = vec![0u8; 2048];
    input[0] = 1;
    input[1] = 2;
    let digest: [u8; 32] =
        <blake2::Blake2b<blake2::digest::consts::U32> as blake2::Digest>::digest(&input).into();
    assert_eq!(lattice.checksum(), digest);
    assert_eq!(state_group_id_from_lthash(&lattice), digest);
}
