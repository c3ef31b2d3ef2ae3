use rezzy::reconcile::frame::{compute_frame_digest, matrix_event_hash, ForwardGraph};
use rezzy::reconcile::server::{SketchBuilder, SketchPolicy, SketchResult};
use rezzy::reconcile::{
    build_bucket_sketches, AlgebraicError, BucketRequest, ElementHash, EventGraph, EventIdFormat,
    H64Index, ReconciliationContext, RoomAccumulator,
};

fn id(s: &str) -> String {
    s.to_string()
}

#[test]
fn test_event_id_str_some_branch() {
    let event_id = id("$anchor");
    let graph = EventGraph::new(EventIdFormat::Legacy).with_event("$anchor");
    assert!(graph.is_known(&event_id));
    assert_eq!(graph.children(&event_id), Vec::<String>::new());
    assert_eq!(graph.event_id_str(&event_id), Some(id("$anchor")));

    let hash = matrix_event_hash(&graph, &event_id).unwrap();
    assert_eq!(graph.event_hash(&event_id), Ok(hash));
    assert_eq!(
        hash,
        ElementHash::from_matrix_event_id("$anchor", EventIdFormat::Legacy).unwrap()
    );
}

#[test]
fn test_custom_event_hash_override() {
    let mut base = EventGraph::new(EventIdFormat::Legacy);
    base = base.with_edge("$anchor", "$child");
    // Deliberately distinct from the legacy hash of "$child", so the assertion
    // below can only pass if traversal asks the graph for the hash.
    let custom_graph = base.with_hash(
        "$child",
        ElementHash::from_matrix_event_id("$custom-$child", EventIdFormat::Legacy).unwrap(),
    );

    assert_eq!(
        custom_graph.event_format(&id("$anchor")),
        EventIdFormat::Legacy
    );

    let digest = compute_frame_digest(&custom_graph, &[id("$anchor")]).unwrap();

    let mut expected = RoomAccumulator::new();
    expected
        .insert(
            ElementHash::from_matrix_event_id("$custom-$child", EventIdFormat::Legacy).unwrap(),
        )
        .unwrap();

    assert_eq!(digest.digest(), expected.digest());
    assert_eq!(digest.known_event_count(), 1);
}

#[test]
fn tests_frame_bounds() {
    let mut graph = EventGraph::new(EventIdFormat::Legacy);
    // pre-join history
    graph = graph.with_edge("$genesis", "$prejoin1");
    graph = graph.with_edge("$prejoin1", "$anchor");
    // in frame
    graph = graph.with_edge("$anchor", "$child1");
    graph = graph.with_edge("$anchor", "$child2");
    graph = graph.with_edge("$child1", "$grandchild");
    graph = graph.with_edge("$child2", "$grandchild");

    let digest = compute_frame_digest(&graph, &[id("$anchor")]).unwrap();

    let mut expected = RoomAccumulator::new();
    expected
        .insert(ElementHash::from_matrix_event_id("$child1", EventIdFormat::Legacy).unwrap())
        .unwrap();
    expected
        .insert(ElementHash::from_matrix_event_id("$child2", EventIdFormat::Legacy).unwrap())
        .unwrap();
    expected
        .insert(
            ElementHash::from_matrix_event_id("$grandchild", EventIdFormat::Legacy).unwrap(),
        )
        .unwrap();

    assert_eq!(digest.digest(), expected.digest());
    assert_eq!(digest.known_event_count(), 3);
}

#[test]
fn tests_outlier_quarantine() {
    let mut graph = EventGraph::new(EventIdFormat::Legacy);
    graph = graph.with_edge("$anchor", "$child");

    // Disconnected outlier
    graph = graph.with_event("$outlier");

    let digest = compute_frame_digest(&graph, &[id("$anchor")]).unwrap();

    let mut expected = RoomAccumulator::new();
    expected
        .insert(ElementHash::from_matrix_event_id("$child", EventIdFormat::Legacy).unwrap())
        .unwrap();

    assert_eq!(digest.digest(), expected.digest());
}

#[test]
fn test_build_bucket_sketches_exact_match() {
    let h1 = ElementHash::from_matrix_event_id("$1", EventIdFormat::Legacy).unwrap();

    let bucket_idx = (h1.h64 >> 56) as u32;
    let requests = [BucketRequest {
        depth: 8,
        prefix: bucket_idx,
        capacity: 4,
    }];

    let sorted_h64 = vec![h1.h64];
    let sketches = build_bucket_sketches(&sorted_h64, &requests).unwrap();

    assert_eq!(sketches.len(), 1);
    let roots = sketches[0].clone().decode_elements(4).unwrap();
    assert_eq!(roots.len(), 1);
    assert_eq!(roots[0], h1.h64);
}

#[test]
fn test_h64_index_bucket_slice() {

    let sorted_h64 = vec![
        0x0000_0001_0000_0001,
        0x0000_0001_0000_0002,
        0x0000_0002_0000_0001,
        0x0000_0003_0000_0001,
    ];
    let index = H64Index::new(&sorted_h64);
    let request = BucketRequest {
        depth: 32,
        prefix: 1,
        capacity: 4,
    };

    let slice = index.bucket_slice(&request).unwrap();
    assert_eq!(slice, &[0x0000_0001_0000_0001, 0x0000_0001_0000_0002]);
}

#[test]
fn test_h64_index_bucket_range() {

    let sorted_h64 = vec![
        0x0000_0001_0000_0001,
        0x0000_0001_0000_0002,
        0x0000_0002_0000_0001,
        0x0000_0003_0000_0001,
    ];
    let index = H64Index::new(&sorted_h64);
    let request = BucketRequest {
        depth: 32,
        prefix: 1,
        capacity: 4,
    };

    let range = index.bucket_range(&request).unwrap();
    assert_eq!(range, 0..2);
}

#[test]
fn test_reconciliation_context_delegates_room_lookups() {

    let mut graph = EventGraph::new(EventIdFormat::Legacy);
    graph = graph.with_edge("$anchor", "$child");
    graph = graph.with_edge("$child", "$grandchild");

    let child = ElementHash::from_matrix_event_id("$child", EventIdFormat::Legacy).unwrap();
    let grandchild =
        ElementHash::from_matrix_event_id("$grandchild", EventIdFormat::Legacy).unwrap();
    let mut sorted_h64 = vec![grandchild.h64, child.h64];
    sorted_h64.sort_unstable();
    let anchors = [id("$anchor")];

    let context = ReconciliationContext::new(&graph, &anchors, &sorted_h64);
    let digest = context.frame_digest().unwrap();

    let mut expected = RoomAccumulator::new();
    expected.insert(child).unwrap();
    expected.insert(grandchild).unwrap();
    assert_eq!(digest.digest(), expected.digest());
    assert_eq!(digest.known_event_count(), 2);

    let request = BucketRequest {
        depth: 0,
        prefix: 0,
        capacity: 4,
    };
    let range = context.bucket_range(&request).unwrap();
    assert_eq!(range, 0..2);
    let slice = context.bucket_slice(&request).unwrap();
    assert_eq!(slice, sorted_h64.as_slice());
    let sketches = context.bucket_sketches(&[request]).unwrap();
    assert_eq!(sketches.len(), 1);
    let mut roots = sketches[0].clone().decode_elements(4).unwrap();
    roots.sort_unstable();
    let mut expected_roots = sorted_h64.clone();
    expected_roots.sort_unstable();
    assert_eq!(roots, expected_roots);
}

#[test]
fn test_build_bucket_sketches_dynamic_summation() {
    let h1 = ElementHash::from_matrix_event_id("$1", EventIdFormat::Legacy).unwrap();
    let h2 = ElementHash::from_matrix_event_id("$2", EventIdFormat::Legacy).unwrap();

    // Depth 0 encompasses everything
    let requests = [BucketRequest {
        depth: 0,
        prefix: 0,
        capacity: 4,
    }];

    let mut sorted_h64 = vec![h1.h64, h2.h64];
    sorted_h64.sort_unstable();
    let sketches = build_bucket_sketches(&sorted_h64, &requests).unwrap();

    assert_eq!(sketches.len(), 1);
    let mut roots = sketches[0].clone().decode_elements(4).unwrap();
    roots.sort_unstable();

    let mut expected = [h1.h64, h2.h64];
    expected.sort_unstable();

    assert_eq!(roots, expected);
}

#[test]
fn test_build_bucket_sketches_deep_extraction() {
    let h1 = ElementHash::from_matrix_event_id("$1", EventIdFormat::Legacy).unwrap();
    let h2 = ElementHash::from_matrix_event_id("$2", EventIdFormat::Legacy).unwrap();

    let depth = 16;
    let shift = 64 - depth;
    let prefix = u32::try_from(h1.h64 >> shift).unwrap();

    let requests = [BucketRequest {
        depth,
        prefix,
        capacity: 4,
    }];

    // Deep extraction uses elements_provider
    let mut sorted_h64 = vec![h1.h64, h2.h64];
    sorted_h64.sort_unstable();
    let sketches = build_bucket_sketches(&sorted_h64, &requests).unwrap();

    assert_eq!(sketches.len(), 1);
    // Only elements that match the prefix should be present.
    let roots = sketches[0].clone().decode_elements(4).unwrap();
    assert!(roots.contains(&h1.h64));
}

#[test]
fn test_build_bucket_sketches_invalid_indices() {
    let sorted_h64 = vec![];
    let requests = [BucketRequest {
        depth: 8,
        prefix: 256, // out of bounds for depth 8 (max prefix is 255)
        capacity: 4,
    }];
    assert_eq!(
        build_bucket_sketches(&sorted_h64, &requests),
        Err(AlgebraicError::InvalidBucketIndex)
    );

    let requests = [BucketRequest {
        depth: 7,
        prefix: 256, // out of bounds
        capacity: 4,
    }];
    assert_eq!(
        build_bucket_sketches(&sorted_h64, &requests),
        Err(AlgebraicError::InvalidBucketIndex)
    );
}

#[test]
fn test_build_bucket_sketches_depth_0_slow_path() {
    let h1 = ElementHash::from_matrix_event_id("$1", EventIdFormat::Legacy).unwrap();

    let requests = [BucketRequest {
        depth: 0,
        prefix: 0,
        capacity: 10, // > 8 forces the slow path
    }];

    let sorted_h64 = vec![h1.h64];
    let sketches = build_bucket_sketches(&sorted_h64, &requests).unwrap();

    assert_eq!(sketches.len(), 1);
    let roots = sketches[0].clone().decode_elements(10).unwrap();
    assert_eq!(roots.len(), 1);
    assert_eq!(roots[0], h1.h64);
}

#[test]
fn test_sketch_builder_split_range() {
    // Elements sorted by h64
    // bit 63 is the highest bit (MAX_DEPTH = 64)
    // For depth 0, we split on bit 63.
    let entries = [
        0x0000_0000_0000_0000,
        0x7FFF_FFFF_FFFF_FFFF,
        0x8000_0000_0000_0000,
        0xFFFF_FFFF_FFFF_FFFF,
    ];

    // Depth 0 -> splits on bit 63 (the MSB)
    let (left, right) = SketchBuilder::split_range(&entries, 0).unwrap();
    assert_eq!(left, 0..2);
    assert_eq!(right, 2..4);

    // Depth 64 -> returns None (exceeds MAX_DEPTH)
    assert_eq!(SketchBuilder::split_range(&entries, 64), None);
}

#[test]
fn test_sketch_builder_build_success_no_split() {
    let sorted_h64 = vec![0x1000_0000_0000_0000, 0x2000_0000_0000_0000];
    let index = H64Index::new(&sorted_h64);

    let policy = SketchPolicy {
        max_aggregate_work: 1000,
        hard_fallback_threshold: 1000,
    };

    let builder = SketchBuilder::new(&index, policy);
    let requests = [BucketRequest {
        depth: 0,
        prefix: 0,
        capacity: 10,
    }];

    let result = builder.build(&requests).unwrap();
    if let SketchResult::Success(sketches) = result {
        assert_eq!(sketches.len(), 1);
    } else {
        panic!("Expected Success");
    }
}

#[test]
fn test_sketch_builder_build_success_with_split() {
    // Two elements, capacity 1. This should trigger a split.
    // Elements differ on the highest bit (bit 63)
    let sorted_h64 = vec![0x0000_0000_0000_0001, 0x8000_0000_0000_0002];
    let index = H64Index::new(&sorted_h64);

    let policy = SketchPolicy {
        max_aggregate_work: 1000,
        hard_fallback_threshold: 1000,
    };

    let builder = SketchBuilder::new(&index, policy);
    let requests = [BucketRequest {
        depth: 0,
        prefix: 0,
        capacity: 1, // smaller than slice length (2)
    }];

    let result = builder.build(&requests).unwrap();
    if let SketchResult::Success(sketches) = result {
        // It splits into two buckets, both fit under capacity 1
        assert_eq!(sketches.len(), 2);
    } else {
        panic!("Expected Success, got Fallback");
    }
}

#[test]
fn test_sketch_builder_build_hard_fallback() {
    let sorted_h64 = vec![1, 2, 3];
    let index = H64Index::new(&sorted_h64);

    let policy = SketchPolicy {
        max_aggregate_work: 1000,
        hard_fallback_threshold: 2, // 3 > 2, triggers hard fallback
    };

    let builder = SketchBuilder::new(&index, policy);
    let requests = [BucketRequest {
        depth: 0,
        prefix: 0,
        capacity: 1,
    }];

    let result = builder.build(&requests).unwrap();
    assert!(matches!(result, SketchResult::FallbackToRangeSync));
}

#[test]
fn test_sketch_builder_build_budget_exhausted() {
    // Two elements, capacity 1, will split.
    // Splitting creates two slices of length 1.
    // Aggregate work will be 1 + 1 = 2.
    let sorted_h64 = vec![0x0000_0000_0000_0001, 0x8000_0000_0000_0002];
    let index = H64Index::new(&sorted_h64);

    let policy = SketchPolicy {
        max_aggregate_work: 1, // Budget of 1 will be exhausted since 2 work is needed
        hard_fallback_threshold: 1000,
    };

    let builder = SketchBuilder::new(&index, policy);
    let requests = [BucketRequest {
        depth: 0,
        prefix: 0,
        capacity: 1,
    }];

    let result = builder.build(&requests).unwrap();
    assert!(matches!(result, SketchResult::FallbackToRangeSync));
}

#[test]
fn frame_digest_reports_the_first_bad_event_breadth_first() {
    let format = EventIdFormat::V4Plus;
    let no_digest = "$short";
    let no_sigil = "bare";
    let good = format!("${}", "A".repeat(43));
    assert_eq!(
        ElementHash::from_matrix_event_id(no_digest, format),
        Err(AlgebraicError::InvalidBase64)
    );
    assert_eq!(
        ElementHash::from_matrix_event_id(no_sigil, format),
        Err(AlgebraicError::InvalidEventId)
    );

    let mut siblings = EventGraph::new(format);
    siblings = siblings.with_edge("$anchor", no_digest);
    siblings = siblings.with_edge("$anchor", no_sigil);
    assert_eq!(
        compute_frame_digest(&siblings, &[id("$anchor")]),
        Err(AlgebraicError::InvalidBase64)
    );

    let mut swapped = EventGraph::new(format);
    swapped = swapped.with_edge("$anchor", no_sigil);
    swapped = swapped.with_edge("$anchor", no_digest);
    assert_eq!(
        compute_frame_digest(&swapped, &[id("$anchor")]),
        Err(AlgebraicError::InvalidEventId)
    );

    // The second child comes before the first grandchild.
    let mut deeper = EventGraph::new(format);
    deeper = deeper.with_edge("$anchor", &good);
    deeper = deeper.with_edge("$anchor", no_digest);
    deeper = deeper.with_edge(&good, no_sigil);
    assert_eq!(
        compute_frame_digest(&deeper, &[id("$anchor")]),
        Err(AlgebraicError::InvalidBase64)
    );
}
