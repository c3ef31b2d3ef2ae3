use rezzy::reconcile::pinsketch::decode;
use rezzy::reconcile::triage::{
    estimate_delta, estimate_strata, validate_bucket_requests, StrataEstimate,
    SATURATED_DELTA_ESTIMATE,
};
use rezzy::reconcile::{
    decode_bucket_sketches, AlgebraicError, BucketDecodeBatch, BucketDecodeSuccess, BucketRequest,
    ElementHash, ResidentKernel, SyndromeSketch, STRATA_COUNT, STRATUM_CAPACITY,
};

#[test]
fn test_validate_bucket_requests_rejects_overlap() {
    // Correct disjoint requests
    assert!(validate_bucket_requests(&[BucketRequest {
        depth: 0,
        prefix: 0,
        capacity: 4
    }])
    .is_ok());

    // Nested ranges: depth 0 prefix 0 contains depth 1 prefix 0
    assert!(validate_bucket_requests(&[
        BucketRequest {
            depth: 0,
            prefix: 0,
            capacity: 4
        },
        BucketRequest {
            depth: 1,
            prefix: 0,
            capacity: 4
        }
    ])
    .is_err());

    // Same-depth out-of-order ranges are rejected.
    assert!(validate_bucket_requests(&[
        BucketRequest {
            depth: 1,
            prefix: 1,
            capacity: 4
        },
        BucketRequest {
            depth: 1,
            prefix: 0,
            capacity: 4
        }
    ])
    .is_err());

    // Same-depth disjoint ranges in canonical order are valid.
    assert!(validate_bucket_requests(&[
        BucketRequest {
            depth: 1,
            prefix: 0,
            capacity: 4
        },
        BucketRequest {
            depth: 1,
            prefix: 1,
            capacity: 4
        }
    ])
    .is_ok());

    // Nested ranges remain invalid in any order.
    assert!(validate_bucket_requests(&[
        BucketRequest {
            depth: 1,
            prefix: 0,
            capacity: 4
        },
        BucketRequest {
            depth: 0,
            prefix: 0,
            capacity: 4
        },
    ])
    .is_err());
}

#[test]
fn test_validate_bucket_requests_enforces_depth_31_prefix_bounds() {
    assert!(validate_bucket_requests(&[BucketRequest {
        depth: 31,
        prefix: (1_u32 << 31) - 1,
        capacity: 4,
    }])
    .is_ok());

    assert_eq!(
        validate_bucket_requests(&[BucketRequest {
            depth: 31,
            prefix: 1_u32 << 31,
            capacity: 4,
        }]),
        Err(AlgebraicError::InvalidBucketIndex)
    );
}

fn toggle_stratum(strata: &mut [[u64; STRATUM_CAPACITY]; STRATA_COUNT], value: u64) {
    let event = ElementHash {
        h128: u128::from(value),
        h64: value,
    };
    let mut resident = ResidentKernel::new();
    resident.insert(event).unwrap();
    for (target, source) in strata.iter_mut().zip(resident.strata()) {
        for (coordinate, value) in target.iter_mut().zip(source) {
            *coordinate ^= value;
        }
    }
}

fn populate_stratum(
    strata: &mut [[u64; STRATUM_CAPACITY]; STRATA_COUNT],
    stratum: usize,
    odd_values: &[u64],
) {
    for odd in odd_values {
        toggle_stratum(strata, odd << stratum);
    }
}

#[test]
fn strata_tail_is_exact_when_every_stratum_decodes() {
    let local = [[0; STRATUM_CAPACITY]; STRATA_COUNT];
    let mut remote = local;
    for value in [1, 2, 4, 8, 3, 5] {
        toggle_stratum(&mut remote, value);
    }
    assert_eq!(estimate_delta(&local, &remote), Ok(6));
    assert_eq!(estimate_delta(&local, &local), Ok(0));
}

#[test]
fn empty_sparse_tail_uses_low_confidence_tail_estimate() {
    let local = [[0; STRATUM_CAPACITY]; STRATA_COUNT];
    let mut remote = local;
    for value in (1..=17).step_by(2) {
        toggle_stratum(&mut remote, value);
    }
    assert_eq!(estimate_delta(&local, &remote), Ok(18));
}

#[test]
fn strata_estimator_marks_stratum_zero_overflow_low_confidence() {
    let local = [[0; STRATUM_CAPACITY]; STRATA_COUNT];
    let mut remote = local;
    for value in (1..=17).step_by(2) {
        toggle_stratum(&mut remote, value);
    }

    assert_eq!(
        decode(&remote[0], STRATUM_CAPACITY),
        Err(AlgebraicError::DecodeFailure)
    );
    assert_eq!(
        estimate_strata(&local, &remote),
        Ok(StrataEstimate {
            delta: 18,
            low_confidence: true,
        })
    );
}

#[test]
fn low_confidence_estimate_uses_lowest_decoded_stratum() {
    let local = [[0; STRATUM_CAPACITY]; STRATA_COUNT];
    let mut remote = local;

    populate_stratum(&mut remote, 7, &[1, 3, 5, 7, 9]);
    populate_stratum(&mut remote, 6, &[1, 3, 5, 7, 9]);
    populate_stratum(&mut remote, 5, &[1, 3, 5, 7, 9]);
    populate_stratum(&mut remote, 4, &[1, 3, 5, 7, 9]);
    populate_stratum(&mut remote, 3, &[1, 3, 5, 7, 9, 11, 13, 15, 17]);

    assert_eq!(estimate_delta(&local, &remote), Ok(320));
    assert_eq!(
        estimate_strata(&local, &remote),
        Ok(StrataEstimate {
            delta: 320,
            low_confidence: true,
        })
    );
}

#[test]
fn highest_stratum_overflow_remains_unmeasurable() {
    let local = [[0; STRATUM_CAPACITY]; STRATA_COUNT];
    let mut remote = local;
    populate_stratum(
        &mut remote,
        STRATA_COUNT - 1,
        &[1, 3, 5, 7, 9, 11, 13, 15, 17],
    );

    assert_eq!(
        decode(&remote[STRATA_COUNT - 1], STRATUM_CAPACITY),
        Err(AlgebraicError::DecodeFailure)
    );
    assert_eq!(
        estimate_delta(&local, &remote),
        Ok(SATURATED_DELTA_ESTIMATE)
    );
    assert_eq!(
        estimate_strata(&local, &remote),
        Ok(StrataEstimate {
            delta: SATURATED_DELTA_ESTIMATE,
            low_confidence: true,
        })
    );
}

#[test]
fn bucket_decoder_retains_successes_and_isolates_decode_failures() {
    let requests = [
        BucketRequest {
            depth: 8,
            prefix: 1,
            capacity: 2,
        },
        BucketRequest {
            depth: 8,
            prefix: 9,
            capacity: 2,
        },
    ];
    let mut first = SyndromeSketch::new(2).unwrap();
    first.toggle(7).unwrap();
    let mut encoded = first
        .coordinates()
        .iter()
        .flat_map(|value| value.to_le_bytes())
        .collect::<Vec<_>>();
    let mut over_capacity = SyndromeSketch::new(2).unwrap();
    for value in [1, 2, 3] {
        over_capacity.toggle(value).unwrap();
    }
    encoded.extend(
        over_capacity
            .coordinates()
            .iter()
            .flat_map(|value| value.to_le_bytes()),
    );

    assert_eq!(
        decode_bucket_sketches(&encoded, &requests),
        Ok(BucketDecodeBatch {
            successful_buckets: vec![BucketDecodeSuccess {
                depth: 8,
                prefix: 1,
                roots: vec![7],
            }],
            failed_buckets: vec![(8, 9)],
        })
    );
}

#[test]
fn bucket_decoder_rejects_length_mismatches_and_nested_overlaps() {
    let unordered = [
        BucketRequest {
            depth: 8,
            prefix: 2,
            capacity: 1,
        },
        BucketRequest {
            depth: 8,
            prefix: 1,
            capacity: 1,
        },
    ];
    assert_eq!(
        decode_bucket_sketches(&[0; 16], &unordered),
        Err(AlgebraicError::InvalidBucketIndex)
    );

    let nested = [
        BucketRequest {
            depth: 0,
            prefix: 0,
            capacity: 1,
        },
        BucketRequest {
            depth: 1,
            prefix: 0,
            capacity: 1,
        },
    ];
    assert_eq!(
        decode_bucket_sketches(&[0; 16], &nested),
        Err(AlgebraicError::InvalidBucketIndex)
    );
    assert_eq!(
        decode_bucket_sketches(
            &[0; 7],
            &[BucketRequest {
                depth: 8,
                prefix: 1,
                capacity: 1,
            }],
        ),
        Err(AlgebraicError::InvalidSketchLength)
    );
    assert_eq!(
        decode_bucket_sketches(
            &[0; 9],
            &[BucketRequest {
                depth: 8,
                prefix: 1,
                capacity: 1,
            }],
        ),
        Err(AlgebraicError::InvalidSketchLength)
    );
}
