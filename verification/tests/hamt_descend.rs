use rezzy::hamt::node::{bucket_index, key_path_hash, HAMT_MAX_DEPTH, HAMT_WIRE_VERSION};
use rezzy::hamt::{
    build_hamt, descend_level, reachable_node_hashes, DescendError, DescendResult, HamtNode,
    KeyPathHash, NodeRef, PersistedInternalNode, StructuralHash,
};
use std::collections::{HashMap, HashSet};
use std::sync::Arc;

#[test]
fn test_descend_level_batched_exact_lookup() {
    fn store_nodes(
        node: &Arc<HamtNode<u32, u64>>,
        storage: &mut HashMap<StructuralHash, Vec<u8>>,
    ) {
        let bytes = PersistedInternalNode::from(node.as_ref()).encode_v1();
        storage.insert(node.structural_hash, bytes);
        for child in &node.children {
            if let NodeRef::Resolved(child_node) = child {
                store_nodes(child_node, storage);
            }
        }
    }

    let key = b"descend_level_key";
    let entries: Vec<(u32, u64)> = (0_u32..50_u32).map(|i| (i, u64::from(i) * 7)).collect();
    let root = build_hamt(key, entries.clone()).expect("build");

    let mut no_resolver = |_h: &StructuralHash| -> Result<Arc<HamtNode<u32, u64>>, ()> {
        panic!("unexpected lazy resolution in memory test")
    };

    // Collect all internal nodes encoded
    let _all_hashes = reachable_node_hashes(&root, &mut no_resolver).expect("reachable");
    let mut storage: HashMap<StructuralHash, Vec<u8>> =
        HashMap::new();

    store_nodes(&root, &mut storage);

    // Prepare requested keys: 50 present keys + 20 absent keys
    let mut requested_hashes = Vec::new();
    for i in 0_u32..70_u32 {
        requested_hashes.push(key_path_hash(key, &i));
    }

    let mut found_map: HashMap<KeyPathHash, u64> =
        HashMap::new();
    let mut absent_set: HashSet<KeyPathHash> = HashSet::new();

    // Start level-synchronous descent from root
    let mut frontier: Vec<(StructuralHash, usize, Vec<KeyPathHash>)> =
        vec![(root.structural_hash, 0, requested_hashes)];

    while !frontier.is_empty() {
        let mut nodes_batch: Vec<(StructuralHash, &[u8], usize, &[KeyPathHash])> = Vec::new();
        let mut borrowed_node_bytes: Vec<&[u8]> = Vec::new();

        for (node_hash, _, _) in &frontier {
            let node_bytes = storage.get(node_hash).expect("node exists in storage");
            borrowed_node_bytes.push(node_bytes.as_slice());
        }

        for (i, (node_hash, depth, keys)) in frontier.iter().enumerate() {
            nodes_batch.push((*node_hash, borrowed_node_bytes[i], *depth, keys.as_slice()));
        }

        let result: DescendResult<u64> =
            descend_level::<u32, u64, _>(key, &nodes_batch, |k| key_path_hash(key, k))
                .expect("descend_level succeeds");

        for (h, v) in result.found {
            found_map.insert(h, v);
        }
        for h in result.absent {
            absent_set.insert(h);
        }

        frontier = result
            .pending
            .into_iter()
            .map(|(child_hash, keys)| (child_hash, frontier[0].1 + 1, keys))
            .collect();
    }

    // Verify results
    assert_eq!(found_map.len(), 50, "all 50 present keys must be found");
    for (k, v) in &entries {
        let h = key_path_hash(key, k);
        assert_eq!(found_map.get(&h), Some(v));
    }

    assert_eq!(
        absent_set.len(),
        20,
        "all 20 absent keys must be proven absent"
    );
    for k in 50_u32..70_u32 {
        let h = key_path_hash(key, &k);
        assert!(absent_set.contains(&h));
    }
}

#[test]
fn test_descend_level_rejects_corruption() {
    let key = b"corrupt_test_key";
    let req_hash = key_path_hash(key, &42_u32);

    // 1. Truncated buffer: returns Decode error
    let truncated_buf = vec![HAMT_WIRE_VERSION, 0x00];
    let res =
        descend_level::<u32, u64, _>(key, &[([0; 32], &truncated_buf, 0, &[req_hash])], |k| {
            key_path_hash(key, k)
        });
    assert!(matches!(res, Err(DescendError::Decode(_))));
    let decode_error = res.expect_err("truncated node must fail to decode");
    assert_eq!(
        decode_error.message(),
        "hamt descend decode error: Buffer too short for v1 header"
    );

    // 2. Overlapping datamap & nodemap: returns Decode error
    let mut corrupt_header = vec![HAMT_WIRE_VERSION]; // current version
    corrupt_header.extend_from_slice(&1_u32.to_le_bytes()); // datamap bit 0
    corrupt_header.extend_from_slice(&1_u32.to_le_bytes()); // nodemap bit 0 (overlap!)
    corrupt_header.extend_from_slice(&1_u32.to_le_bytes()); // leaves count 1
    corrupt_header.extend_from_slice(&1_u32.to_le_bytes()); // child count 1
    corrupt_header.extend_from_slice(&42_u32.to_le_bytes()); // leaf key
    corrupt_header.extend_from_slice(&100_u64.to_le_bytes()); // leaf val
    corrupt_header.extend_from_slice(&[0u8; 32]); // child hash
    let res2 =
        descend_level::<u32, u64, _>(key, &[([0; 32], &corrupt_header, 0, &[req_hash])], |k| {
            key_path_hash(key, k)
        });
    assert!(matches!(res2, Err(DescendError::Decode(_))));

    // 3. A valid node returned for the wrong requested hash is corruption.
    let root = build_hamt(key, vec![(42_u32, 100_u64)]).expect("build root");
    let node_bytes = PersistedInternalNode::from(root.as_ref()).encode_v1();
    let wrong_hash = [0xff; 32];
    let res3 =
        descend_level::<u32, u64, _>(key, &[(wrong_hash, &node_bytes, 0, &[req_hash])], |k| {
            key_path_hash(key, k)
        });
    assert!(matches!(res3, Err(DescendError::CorruptNode(_))));
    let corrupt_error = res3.expect_err("wrong node hash must be corruption");
    assert_eq!(
        corrupt_error.message(),
        "hamt descend corrupt node: decoded node contents do not match requested node hash"
    );

    // 4. The persisted hash matches the requested hash, but the decoded
    // contents were altered after hashing.
    let mut corrupt_node = PersistedInternalNode::<u32, u64>::from(root.as_ref());
    corrupt_node.leaves[0].1 = 101;
    let corrupt_bytes = corrupt_node.encode_v1();
    let res4 = descend_level::<u32, u64, _>(
        key,
        &[(root.structural_hash, &corrupt_bytes, 0, &[req_hash])],
        |k| key_path_hash(key, k),
    );
    assert_eq!(
        res4,
        Err(DescendError::CorruptNode(
            "decoded node contents do not match requested node hash"
        ))
    );

    // 5. A valid node queried beyond the routing depth is rejected.
    let res5 = descend_level::<u32, u64, _>(
        key,
        &[(
            root.structural_hash,
            &node_bytes,
            HAMT_MAX_DEPTH,
            &[req_hash],
        )],
        |k| key_path_hash(key, k),
    );
    assert_eq!(
        res5,
        Err(DescendError::CorruptNode(
            "HAMT depth exceeds routing limit"
        ))
    );
}

/// `descend_level` requires every entry in a single `nodes_and_keys` call to
/// share the same `depth` — mixing depths would merge requests from
/// different levels into one frontier and misroute subsequent lookups.
#[test]
fn test_descend_level_rejects_mixed_depth_batch() {
    let key = b"mixed_depth_key";
    let root = build_hamt(key, vec![(42_u32, 100_u64)]).expect("build root");
    let node_bytes = PersistedInternalNode::from(root.as_ref()).encode_v1();
    let req_hash = key_path_hash(key, &42_u32);

    let res = descend_level::<u32, u64, _>(
        key,
        &[
            (root.structural_hash, &node_bytes, 0, &[req_hash]),
            (root.structural_hash, &node_bytes, 1, &[req_hash]),
        ],
        |k| key_path_hash(key, k),
    );
    assert_eq!(
        res,
        Err(DescendError::CorruptNode(
            "mixed-depth entries in a single descend_level call"
        ))
    );
}

/// `descend_level` validates that the decoded leaf key at a slot actually
/// routes to that slot under the caller's `key_hash_fn`. A node stored under
/// its own recomputed hash can still be malformed if its leaf key no longer
/// agrees with its bitmap slot; it must be rejected rather than silently
/// returning the wrong leaf or treating the requested key as absent.
#[test]
fn test_descend_level_rejects_leaf_routed_to_wrong_slot() {
    let key = b"wrong_slot_key";
    let root = build_hamt(key, vec![(42_u32, 100_u64)]).expect("build root");
    let original_slot = bucket_index(&key_path_hash(key, &42_u32), 0);

    // Find a replacement leaf key that hashes to a *different* slot at depth 0.
    let mut wrong_key = 42_u32;
    loop {
        wrong_key += 1;
        if bucket_index(&key_path_hash(key, &wrong_key), 0) != original_slot {
            break;
        }
    }

    // Swap the leaf key in place while retaining 42's original bitmap slot,
    // then use the tampered node's own recomputed storage hash. Verification
    // must pass so this exercises routing validation rather than a hash
    // mismatch.
    let mut corrupt_node = PersistedInternalNode::<u32, u64>::from(root.as_ref());
    corrupt_node.leaves[0].0 = wrong_key;
    let decoded_children: Vec<NodeRef<u32, u64>> = corrupt_node
        .child_hashes
        .iter()
        .copied()
        .map(NodeRef::Lazy)
        .collect();
    let recomputed_hash = HamtNode::compute_structural_hash(
        key,
        corrupt_node.datamap,
        corrupt_node.nodemap,
        &corrupt_node.leaves,
        &decoded_children,
    );
    let corrupt_bytes = corrupt_node.encode_v1();

    let req_hash = key_path_hash(key, &42_u32);
    let res = descend_level::<u32, u64, _>(
        key,
        &[(recomputed_hash, &corrupt_bytes, 0, &[req_hash])],
        |k| key_path_hash(key, k),
    );
    assert_eq!(
        res,
        Err(DescendError::CorruptNode("leaf routed to wrong slot"))
    );
}
