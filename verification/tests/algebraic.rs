use rezzy::reconcile::algebraic::verify_residual;
use rezzy::reconcile::{
    AlgebraicError, ElementHash, RoomAccumulator, SyndromeSketch, MAX_SKETCH_CAPACITY,
};

fn hash(seed: u8) -> ElementHash {
    ElementHash {
        h128: u128::from(seed) << 120,
        h64: u64::from(seed) << 56,
    }
}

#[test]
fn accumulator_wire_form_is_exactly_sixteen_bytes() {
    let mut accumulator = RoomAccumulator::new();
    accumulator.insert(hash(7)).unwrap();
    assert_eq!(
        RoomAccumulator::decode_digest(&accumulator.encode_digest()).unwrap(),
        accumulator.digest()
    );
    accumulator.remove(hash(7)).unwrap();
    assert_eq!(accumulator, RoomAccumulator::new());
}

#[test]
fn sketch_subtraction_recovers_toggled_syndromes() {
    let mut left = SyndromeSketch::new(4).unwrap();
    let mut right = SyndromeSketch::new(4).unwrap();
    left.toggle(2).unwrap();
    left.toggle(3).unwrap();
    right.toggle(2).unwrap();
    let residual = left.subtract(&right).unwrap();
    let mut expected = SyndromeSketch::new(4).unwrap();
    expected.toggle(3).unwrap();
    assert_eq!(residual, expected);
    assert_eq!(
        SyndromeSketch::decode(4, &residual.encode()).unwrap(),
        residual
    );
}

#[test]
fn etag_is_independent_of_extremity_order() {
    let accumulator = RoomAccumulator {
        digest: 42,
        count: 2,
    };
    assert_eq!(
        accumulator.etag(&["$b", "$a"]),
        accumulator.etag(&["$a", "$b"]),
    );
    assert_ne!(accumulator.etag(&["$a"]), accumulator.etag(&["$b"]));
}

#[test]
fn counters_reject_underflow_and_profile_overflow() {
    let event = hash(1);
    assert_eq!(
        RoomAccumulator::new().remove(event),
        Err(AlgebraicError::CountUnderflow)
    );

    let mut accumulator = RoomAccumulator {
        digest: 0,
        count: u64::MAX,
    };
    assert_eq!(
        accumulator.insert(event),
        Err(AlgebraicError::CountOverflow)
    );
}

#[test]
fn sketch_construction_rejects_invalid_capacities() {
    assert_eq!(
        SyndromeSketch::from_coordinates(Vec::new()),
        Err(AlgebraicError::InvalidSketchCapacity)
    );
    assert_eq!(
        SyndromeSketch::from_coordinates(vec![0; MAX_SKETCH_CAPACITY + 1]),
        Err(AlgebraicError::InvalidSketchCapacity)
    );
}

#[test]
fn sketch_xor_modifies_in_place() {
    let mut left = SyndromeSketch::new(4).unwrap();
    left.toggle(1).unwrap();
    left.toggle(2).unwrap();

    let mut right = SyndromeSketch::new(4).unwrap();
    right.toggle(2).unwrap();
    right.toggle(3).unwrap();

    left.xor(&right).unwrap();

    let mut expected = SyndromeSketch::new(4).unwrap();
    expected.toggle(1).unwrap();
    expected.toggle(3).unwrap();

    assert_eq!(left, expected);
}

#[test]
fn sketch_xor_rejects_capacity_mismatch() {
    let mut left = SyndromeSketch::new(4).unwrap();
    let right = SyndromeSketch::new(3).unwrap();

    assert_eq!(left.xor(&right), Err(AlgebraicError::InvalidSketchLength));
}

#[test]
fn sketch_decode_elements_rejects_zero_root() {
    let sketch = SyndromeSketch::new(1).unwrap();

    assert_eq!(
        sketch.validate_decoded_elements(vec![0]),
        Err(AlgebraicError::DecodeFailure)
    );
}

#[test]
fn sketch_decode_rejects_invalid_capacity() {
    assert_eq!(
        SyndromeSketch::decode(0, ""),
        Err(AlgebraicError::InvalidSketchCapacity)
    );
    assert_eq!(
        SyndromeSketch::decode(MAX_SKETCH_CAPACITY + 1, ""),
        Err(AlgebraicError::InvalidSketchCapacity)
    );
}

#[test]
fn sketch_from_encoded_bytes_rejects_length_mismatch() {
    let bytes = vec![0; 7];

    assert_eq!(
        SyndromeSketch::from_encoded_bytes(1, &bytes),
        Err(AlgebraicError::InvalidSketchLength)
    );
}

#[test]
fn residual_is_the_sum_of_wide_identifiers() {
    let a = ElementHash { h128: 0b1100, h64: 1 };
    let b = ElementHash { h128: 0b1010, h64: 2 };
    assert!(verify_residual(0b0110, &[a, b]));
    assert!(!verify_residual(0b0111, &[a, b]));
    assert!(verify_residual(0, &[]));
}

#[test]
fn etag_hashes_the_sorted_extremities_as_a_json_array() {
    let etag = RoomAccumulator::new().etag(&["$b\"\\\n\u{1}\u{7f}", "$a"]);
    let frontier = <sha2::Sha256 as sha2::Digest>::digest(
        b"[\"$a\",\"$b\\\"\\\\\\n\\u0001\x7f\"]",
    );
    let mut bytes = vec![0_u8; 16];
    bytes.extend_from_slice(&frontier[..8]);
    assert_eq!(
        etag,
        base64::Engine::encode(&base64::engine::general_purpose::URL_SAFE_NO_PAD, bytes)
    );
}
