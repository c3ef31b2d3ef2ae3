use rezzy::reconcile::triage::MAX_BUCKET_SKETCH_CAPACITY;
use rezzy::reconcile::{
    AlgebraicError, BucketDecodeBatch, BucketDecodeSuccess, BucketRequest, ClientAction,
    ElementHash, ReconciliationClient, RemoteDigest, ResidentKernel, STRATA_COUNT,
    STRATUM_CAPACITY,
};

fn hash(wide: u128, short: u64) -> ElementHash {
    ElementHash {
        h128: wide,
        h64: short,
    }
}

fn accumulator(hashes: &[ElementHash]) -> ResidentKernel {
    let mut kernel = ResidentKernel::new();
    for hash in hashes {
        kernel.insert(*hash).unwrap();
    }
    kernel
}

#[test]
fn tests_client_builder_methods_and_accessors() {
    let client = ReconciliationClient::default()
        .with_max_rounds(42)
        .with_gate_threshold(Some(999));
    assert_eq!(client.max_rounds(), 42);
    assert_eq!(client.gate_threshold(), Some(999));

    let client = client.allow_unlimited_delta();
    assert_eq!(client.gate_threshold(), None);
}

#[test]
fn selects_short_circuit_extremity_and_sketch_paths() {
    let local = accumulator(&[hash(1, 1), hash(2, 2)]);
    let client = ReconciliationClient::default();
    let matching = RemoteDigest {
        digest: local.accumulator().digest(),
        known_event_count: 2,
        strata: [[0; STRATUM_CAPACITY]; STRATA_COUNT],
        frame_matches: true,
        has_unknown_extremity: false,
    };
    assert_eq!(
        client.select_action(&local, matching, 0),
        ClientAction::Synchronized
    );
    assert_eq!(
        client.select_action(
            &local,
            RemoteDigest {
                frame_matches: false,
                ..matching
            },
            0,
        ),
        ClientAction::ExtremityDiff
    );
    assert_eq!(
        client.select_action(
            &local,
            RemoteDigest {
                digest: 7,
                known_event_count: 6,
                ..matching
            },
            2,
        ),
        ClientAction::BucketSketches {
            requests: vec![BucketRequest {
                depth: 0,
                prefix: 0,
                capacity: 12,
            }],
            accumulated_roots: vec![],
        }
    );
}

#[test]
fn caps_large_and_two_sided_differences_for_localization() {
    let client = ReconciliationClient::new(16).unwrap();
    let local = accumulator(&[hash(1, 1)]);
    let expected_requests = (0..64)
        .map(|prefix| BucketRequest {
            depth: 6,
            prefix,
            capacity: 24,
        })
        .collect();
    assert_eq!(
        client.select_action(
            &local,
            RemoteDigest {
                digest: 2,
                known_event_count: 1_000,
                strata: *local.strata(),
                frame_matches: true,
                has_unknown_extremity: false,
            },
            0,
        ),
        ClientAction::BucketSketches {
            requests: expected_requests,
            accumulated_roots: vec![],
        }
    );
    assert_eq!(
        client.select_action(
            &local,
            RemoteDigest {
                digest: 2,
                known_event_count: 1,
                strata: *local.strata(),
                frame_matches: true,
                has_unknown_extremity: false,
            },
            0,
        ),
        ClientAction::BucketSketches {
            requests: vec![BucketRequest {
                depth: 0,
                prefix: 0,
                capacity: 4,
            }],
            accumulated_roots: vec![],
        }
    );
}

#[test]
fn capacity_overflow_falls_back_to_extremity_diff() {
    let client = ReconciliationClient::default();
    assert_eq!(
        client.select_action(
            &ResidentKernel::new(),
            RemoteDigest {
                digest: 1,
                known_event_count: u64::MAX,
                strata: [[0; STRATUM_CAPACITY]; STRATA_COUNT],
                frame_matches: true,
                has_unknown_extremity: false,
            },
            usize::MAX,
        ),
        ClientAction::ExtremityDiff
    );
}

#[test]
fn bucket_transition_resolves_and_preserves_roots() {
    let batch = BucketDecodeBatch {
        successful_buckets: vec![BucketDecodeSuccess {
            depth: 8,
            prefix: 1,
            roots: vec![42],
        }],
        failed_buckets: vec![],
    };
    assert_eq!(
        ReconciliationClient::transition_bucket_batch(batch, &[], vec![99], None, 4096),
        ClientAction::ResolveRoots {
            roots: vec![99, 42]
        }
    );
}

#[test]
fn bucket_transition_retries_and_preserves_partial_successes() {
    let batch = BucketDecodeBatch {
        successful_buckets: vec![BucketDecodeSuccess {
            depth: 8,
            prefix: 1,
            roots: vec![42],
        }],
        failed_buckets: vec![(8, 2)],
    };
    let previous = [BucketRequest {
        depth: 8,
        prefix: 2,
        capacity: 8,
    }];
    assert_eq!(
        ReconciliationClient::transition_bucket_batch(batch, &previous, vec![99], None, 4096,),
        ClientAction::BucketSketches {
            requests: vec![BucketRequest {
                depth: 8,
                prefix: 2,
                capacity: 18,
            }],
            accumulated_roots: vec![99, 42],
        }
    );
}

#[test]
fn bucket_transition_falls_back_without_panicking() {
    let batch = BucketDecodeBatch {
        successful_buckets: vec![],
        failed_buckets: vec![(8, 3)],
    };
    assert_eq!(
        ReconciliationClient::transition_bucket_batch(
            batch.clone(),
            &[BucketRequest {
                depth: 8,
                prefix: 3,
                capacity: MAX_BUCKET_SKETCH_CAPACITY,
            }],
            vec![],
            None,
            4096,
        ),
        ClientAction::BucketSketches {
            requests: vec![
                BucketRequest {
                    depth: 9,
                    prefix: 6,
                    capacity: 10,
                },
                BucketRequest {
                    depth: 9,
                    prefix: 7,
                    capacity: 10,
                },
            ],
            accumulated_roots: vec![],
        }
    );
    assert_eq!(
        ReconciliationClient::transition_bucket_batch(
            batch,
            &[BucketRequest {
                depth: 8,
                prefix: 1,
                capacity: 8,
            }],
            vec![],
            None,
            4096,
        ),
        ClientAction::ExtremityDiff
    );
}

#[test]
fn builds_a_decodable_local_sketch() {
    let hashes = [hash(1, 3), hash(2, 5)];
    let sketch = ReconciliationClient::default()
        .build_sketch(4, &hashes)
        .unwrap();
    assert_eq!(sketch.decode_elements(4).unwrap().as_slice(), &[3, 5]);
}

#[test]
fn verifies_global_residual_before_admission() {
    assert_eq!(
        ReconciliationClient::verify_global_residual(0x3333, &[0x1111], &[0x2222]),
        Ok(())
    );
    assert_eq!(
        ReconciliationClient::verify_global_residual(0x7777, &[0x1111], &[0x2222]),
        Err(AlgebraicError::DecodeFailure)
    );
    assert_eq!(
        ReconciliationClient::verify_global_residual(0xaaaa, &[0x1111], &[0x2222]),
        Err(AlgebraicError::DecodeFailure)
    );
}
