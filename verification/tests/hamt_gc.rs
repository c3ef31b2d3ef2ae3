use rezzy::hamt::audit::{
    bitmap_node_reachability_audit, distinct_bounded, node_reachability_audit,
    unreachable_node_hashes,
    BitmapAuditError, IndexTooLarge, IndexedUniverse, UniverseTooLarge,
};
use rezzy::hamt::gc::{RefcountTable, RefcountUnderflow};
use rezzy::hamt::{
    build_hamt, diff_node_hashes, insert, reachable_node_hashes, HamtNode, HamtTraversalError,
    NodeRef, StructuralHash,
};
use std::collections::BTreeSet;
use std::sync::Arc;

fn panic_resolver<K, V>(_hash: &StructuralHash) -> Result<Arc<HamtNode<K, V>>, ()> {
    panic!("unexpected lazy");
}

#[test]
fn test_unreachable_node_hashes_reports_only_the_orphan() {

    // Two entirely distinct trees keyed under different structural keys, so
    // they share no node hashes at any level: `root_live` stands in for a
    // still-referenced state group, `root_orphan` for one whose only root
    // record was already deleted upstream (the case this function exists to
    // find).
    let live_entries: Vec<(u64, u64)> = (0_u64..64).map(|i| (i, i.wrapping_mul(10))).collect();
    let orphan_entries: Vec<(u64, u64)> = (0_u64..64).map(|i| (i, i.wrapping_mul(7))).collect();
    let root_live = build_hamt(b"live_key", live_entries).expect("build live root");
    let root_orphan = build_hamt(b"orphan_key", orphan_entries).expect("build orphan root");

    let mut resolver = |_hash: &StructuralHash| -> Result<Arc<HamtNode<u64, u64>>, ()> {
        unreachable!("both trees are fully resolved, no lazy children")
    };

    let expected_orphan_hashes: BTreeSet<StructuralHash> =
        reachable_node_hashes(&root_orphan, &mut resolver)
            .expect("orphan walk should succeed")
            .into_iter()
            .collect();
    let live_hashes: BTreeSet<StructuralHash> =
        reachable_node_hashes(&root_live, &mut resolver)
            .expect("live walk should succeed")
            .into_iter()
            .collect();
    assert!(
        expected_orphan_hashes.is_disjoint(&live_hashes),
        "fixture must not accidentally share node hashes between the two trees"
    );

    let universe = live_hashes
        .iter()
        .copied()
        .chain(expected_orphan_hashes.iter().copied())
        .collect::<Vec<StructuralHash>>();

    let unreachable: BTreeSet<StructuralHash> =
        unreachable_node_hashes(&vec![root_live], &universe, &mut resolver)
            .expect("audit should succeed")
            .into_iter()
            .collect();

    assert_eq!(
        unreachable, expected_orphan_hashes,
        "only the orphan tree's node hashes should come back as unreachable"
    );
}

#[test]
fn test_reachability_audit_partitions_universe_and_agrees_with_unreachable_node_hashes() {

    // Same two-disjoint-trees fixture as
    // `test_unreachable_node_hashes_reports_only_the_orphan`, reused here to
    // check the fuller `NodeReachabilityAudit` result: `reachable` must be the
    // exact complement of `unreachable` within `universe`, and must agree
    // with what `unreachable_node_hashes` reports for the same inputs (it
    // is defined as a thin wrapper over `node_reachability_audit`).
    let live_entries: Vec<(u64, u64)> = (0_u64..64).map(|i| (i, i.wrapping_mul(10))).collect();
    let orphan_entries: Vec<(u64, u64)> = (0_u64..64).map(|i| (i, i.wrapping_mul(7))).collect();
    let root_live = build_hamt(b"live_key", live_entries).expect("build live root");
    let root_orphan = build_hamt(b"orphan_key", orphan_entries).expect("build orphan root");

    let mut resolver = |_hash: &StructuralHash| -> Result<Arc<HamtNode<u64, u64>>, ()> {
        unreachable!("both trees are fully resolved, no lazy children")
    };

    let expected_live_hashes: BTreeSet<StructuralHash> =
        reachable_node_hashes(&root_live, &mut resolver)
            .expect("live walk should succeed")
            .into_iter()
            .collect();
    let expected_orphan_hashes: BTreeSet<StructuralHash> =
        reachable_node_hashes(&root_orphan, &mut resolver)
            .expect("orphan walk should succeed")
            .into_iter()
            .collect();

    let universe: Vec<StructuralHash> = expected_live_hashes
        .iter()
        .copied()
        .chain(expected_orphan_hashes.iter().copied())
        .collect();

    let audit =
        node_reachability_audit(&vec![root_live.clone()], &universe, &mut resolver)
            .expect("audit should succeed");

    let reachable_set: BTreeSet<StructuralHash> = audit.reachable.iter().copied().collect();
    assert_eq!(
        reachable_set, expected_live_hashes,
        "reachable side must be exactly the live tree's hashes"
    );
    let unreachable_set: BTreeSet<StructuralHash> = audit.unreachable.iter().copied().collect();
    assert_eq!(
        unreachable_set, expected_orphan_hashes,
        "unreachable side must be exactly the orphan tree's hashes"
    );

    // reachable and unreachable must partition universe: no overlap, and
    // together they account for every hash in it.
    assert!(reachable_set.is_disjoint(&unreachable_set));
    let universe_set: BTreeSet<StructuralHash> = universe.iter().copied().collect();
    let mut recombined: BTreeSet<StructuralHash> = reachable_set.clone();
    recombined.extend(unreachable_set.iter().copied());
    assert_eq!(recombined, universe_set);

    // Must agree with the unreachable_node_hashes convenience wrapper on
    // identical inputs.
    let via_wrapper: BTreeSet<StructuralHash> =
        unreachable_node_hashes(&vec![root_live], &universe, &mut resolver)
            .expect("wrapper audit should succeed")
            .into_iter()
            .collect();
    assert_eq!(via_wrapper, unreachable_set);
}

#[test]
fn test_bitmap_reachability_audit_agrees_with_reachability_audit() {

    // Same two-disjoint-trees fixture as
    // `test_reachability_audit_partitions_universe_and_agrees_with_unreachable_node_hashes`.
    // The bitmap variant must partition the same way and, once its dense
    // indexes are mapped back through `IndexedUniverse`, must agree exactly
    // with the `StructuralHash`-keyed `node_reachability_audit` result on the
    // same inputs.
    let live_entries: Vec<(u64, u64)> = (0_u64..64).map(|i| (i, i.wrapping_mul(10))).collect();
    let orphan_entries: Vec<(u64, u64)> = (0_u64..64).map(|i| (i, i.wrapping_mul(7))).collect();
    let root_live = build_hamt(b"live_key", live_entries).expect("build live root");
    let root_orphan = build_hamt(b"orphan_key", orphan_entries).expect("build orphan root");

    let mut resolver = |_hash: &StructuralHash| -> Result<Arc<HamtNode<u64, u64>>, ()> {
        unreachable!("both trees are fully resolved, no lazy children")
    };

    let expected_live_hashes: BTreeSet<StructuralHash> =
        reachable_node_hashes(&root_live, &mut resolver)
            .expect("live walk should succeed")
            .into_iter()
            .collect();
    let expected_orphan_hashes: BTreeSet<StructuralHash> =
        reachable_node_hashes(&root_orphan, &mut resolver)
            .expect("orphan walk should succeed")
            .into_iter()
            .collect();

    let universe: Vec<StructuralHash> = expected_live_hashes
        .iter()
        .copied()
        .chain(expected_orphan_hashes.iter().copied())
        .collect();

    let bitmap_audit = bitmap_node_reachability_audit(&vec![root_live.clone()], &universe, &mut resolver)
    .expect("bitmap audit should succeed");

    // Every index in `universe` must land in exactly one of the two bitmaps.
    assert!((&bitmap_audit.reachable & &bitmap_audit.unreachable).is_empty());
    let mut recombined = bitmap_audit.reachable.clone();
    recombined |= &bitmap_audit.unreachable;
    let all_indices: roaring::RoaringBitmap =
        (0..u32::try_from(universe.len()).expect("small test universe")).collect();
    assert_eq!(recombined, all_indices);

    let reachable_via_bitmap: BTreeSet<StructuralHash> = bitmap_audit
        .reachable
        .iter()
        .map(|idx| {
            bitmap_audit
                .universe
                .hash_at(idx)
                .expect("every set index was assigned by IndexedUniverse::try_build")
        })
        .collect();
    assert_eq!(
        reachable_via_bitmap, expected_live_hashes,
        "bitmap reachable side, resolved back through IndexedUniverse, must match the live tree"
    );

    let unreachable_via_bitmap: BTreeSet<StructuralHash> = bitmap_audit
        .unreachable
        .iter()
        .map(|idx| {
            bitmap_audit
                .universe
                .hash_at(idx)
                .expect("every set index was assigned by IndexedUniverse::try_build")
        })
        .collect();
    assert_eq!(
        unreachable_via_bitmap, expected_orphan_hashes,
        "bitmap unreachable side, resolved back through IndexedUniverse, must match the orphan tree"
    );

    // Must agree with the StructuralHash-keyed node_reachability_audit on the
    // exact same inputs.
    let hash_audit = node_reachability_audit(&vec![root_live], &universe, &mut resolver)
        .expect("hash audit should succeed");
    let hash_reachable_set: BTreeSet<StructuralHash> =
        hash_audit.reachable.iter().copied().collect();
    assert_eq!(reachable_via_bitmap, hash_reachable_set);
}

/// Regression for the duplicate-unreachable dedup: `node_reachability_audit`'s
/// `unreachable` field is a `Vec` that must remain a *partition* of `universe`
/// (each hash at most once), matching the dedup the bitmap variant's
/// `IndexedUniverse` provides. When `universe` repeats an unreachable hash,
/// both audit paths must still emit it exactly once.
#[test]
fn test_reachability_audit_dedups_duplicate_unreachable_hashes() {

    let entries: Vec<(u64, u64)> = (0_u64..8).map(|i| (i, i)).collect();
    let root_live = build_hamt(b"live_key", entries).expect("build live root");

    let mut resolver = |_hash: &StructuralHash| -> Result<Arc<HamtNode<u64, u64>>, ()> {
        unreachable!("fully resolved tree, no lazy children")
    };

    let live_hashes: BTreeSet<StructuralHash> =
        reachable_node_hashes(&root_live, &mut resolver)
            .expect("live walk should succeed")
            .into_iter()
            .collect();

    // An orphan hash that is NOT reachable from `root_live`.
    let orphan: StructuralHash = [0xFF; 32];
    assert!(!live_hashes.contains(&orphan));

    // Duplicate the orphan (and a live hash too) in `universe`.
    let mut universe: Vec<StructuralHash> = Vec::new();
    universe.extend(live_hashes.iter().copied());
    universe.push(orphan);
    universe.push(orphan); // duplicate unreachable
    universe.push(orphan); // triplicate

    let hash_audit =
        node_reachability_audit(&vec![root_live.clone()], &universe, &mut resolver)
            .expect("hash audit should succeed");
    // `unreachable` must be a partition: the orphan appears exactly once,
    // not once per occurrence in `universe`.
    let unreachable_count = hash_audit
        .unreachable
        .iter()
        .filter(|h| **h == orphan)
        .count();
    assert_eq!(
        unreachable_count, 1,
        "duplicate unreachable hash must be emitted exactly once, got {unreachable_count}"
    );

    // And it must agree with the bitmap variant's dedup.
    let bitmap_audit =
        bitmap_node_reachability_audit(&vec![root_live], &universe, &mut resolver)
            .expect("bitmap audit should succeed");
    let bitmap_unreachable: BTreeSet<StructuralHash> = bitmap_audit
        .unreachable
        .iter()
        .map(|idx| {
            bitmap_audit
                .universe
                .hash_at(idx)
                .expect("every set index was assigned by IndexedUniverse::try_build")
        })
        .collect();
    let hash_unreachable: BTreeSet<StructuralHash> =
        hash_audit.unreachable.iter().copied().collect();
    assert_eq!(
        hash_unreachable, bitmap_unreachable,
        "hash and bitmap audits must agree on the deduped unreachable set"
    );
    assert_eq!(hash_unreachable, BTreeSet::from([orphan]));
}

#[test]
fn test_indexed_universe_assigns_stable_dense_indices_and_collapses_duplicates() {
    let h1: StructuralHash = [1; 32];
    let h2: StructuralHash = [2; 32];
    let h3: StructuralHash = [3; 32];

    // h1 appears twice; it must collapse onto a single index rather than
    // being assigned two.
    let universe = IndexedUniverse::try_build(&[h1, h2, h1, h3])
        .expect("small test universe fits in u32");

    assert_eq!(
        universe.len(),
        3,
        "duplicate hash must not inflate the count"
    );
    assert!(!universe.is_empty());

    let idx1 = universe.index_of(&h1).expect("h1 was indexed");
    let idx2 = universe.index_of(&h2).expect("h2 was indexed");
    let idx3 = universe.index_of(&h3).expect("h3 was indexed");
    // Indexes are assigned in first-seen order (input is [h1, h2, h1, h3]):
    // h1 was first seen at 0, h2 at 1, h3 at 2. The duplicates collapse onto
    // the first-seen index, so these exact expectations are load-bearing for
    // the documented first-seen ordering, not just distinctness.
    assert_eq!(idx1, 0, "h1 is the first hash seen, so it must own index 0");
    assert_eq!(
        idx2, 1,
        "h2 is the second distinct hash seen, so it must own index 1"
    );
    assert_eq!(
        idx3, 2,
        "h3 is the third distinct hash seen, so it must own index 2"
    );
    assert_ne!(idx1, idx2);
    assert_ne!(idx1, idx3);
    assert_ne!(idx2, idx3);

    assert_eq!(universe.hash_at(idx1), Some(h1));
    assert_eq!(universe.hash_at(idx2), Some(h2));
    assert_eq!(universe.hash_at(idx3), Some(h3));

    let missing: StructuralHash = [9; 32];
    assert_eq!(universe.index_of(&missing), None);
    assert_eq!(
        universe.hash_at(u32::try_from(universe.len()).unwrap()),
        None
    );

    assert_eq!(universe.hashes().len(), 3);
}

#[test]
fn test_universe_too_large_display() {

    let err = UniverseTooLarge {
        distinct_count: 4_294_967_296,
        allocation_failed: false,
    };
    assert_eq!(
        err.message(),
        "universe has 4294967296 distinct hashes, more than u32::MAX can index"
    );
}

#[test]
fn test_universe_too_large_display_allocation_failed() {

    let err = UniverseTooLarge {
        distinct_count: 123,
        allocation_failed: true,
    };
    assert_eq!(
        err.message(),
        "universe has at least 123 distinct hashes (allocation failed before scanning complete), more than u32::MAX can index"
    );
}

#[test]
fn test_bitmap_audit_error_display_and_conversions() {

    let universe_err = UniverseTooLarge {
        distinct_count: 42,
        allocation_failed: false,
    };
    let wrapped: BitmapAuditError<&str> = universe_err.into();
    assert_eq!(
        wrapped.message(|error: &&str| error.to_string()),
        "universe has 42 distinct hashes, more than u32::MAX can index"
    );
    assert!(matches!(
        wrapped,
        BitmapAuditError::Universe(_)
    ));

    let traversal_err: HamtTraversalError<&str> = HamtTraversalError::MaxDepthExceeded { depth: 7 };
    let wrapped: BitmapAuditError<&str> = traversal_err.into();
    assert_eq!(
        wrapped.message(|error: &&str| error.to_string()),
        "hamt traversal exceeded max depth at 7"
    );
    assert!(matches!(
        wrapped,
        BitmapAuditError::Traversal(_)
    ));
}

/// Both variants wrap the error that they came from.
#[test]
fn test_bitmap_audit_error_source_and_downcast() {
    let universe_err = UniverseTooLarge {
        distinct_count: 123,
        allocation_failed: false,
    };
    let wrapped: BitmapAuditError<std::io::Error> = universe_err.into();
    assert_eq!(
        wrapped.message(|error: &std::io::Error| error.to_string()),
        "universe has 123 distinct hashes, more than u32::MAX can index"
    );
    match wrapped {
        BitmapAuditError::Universe(source) => assert_eq!(source.distinct_count, 123),
        BitmapAuditError::Traversal(_) => panic!("Universe variant must expose a source"),
    }

    let traversal: HamtTraversalError<std::io::Error> =
        HamtTraversalError::Resolve(std::io::Error::other("boom"));
    let wrapped: BitmapAuditError<std::io::Error> = traversal.into();
    assert_eq!(
        wrapped.message(|error: &std::io::Error| error.to_string()),
        "hamt traversal resolver failed: boom"
    );
    match wrapped {
        BitmapAuditError::Traversal(source) => {
            assert_eq!(
                source.message(|error: &std::io::Error| error.to_string()),
                "hamt traversal resolver failed: boom"
            );
            match source {
                HamtTraversalError::Resolve(inner) => assert_eq!(inner.to_string(), "boom"),
                HamtTraversalError::MaxDepthExceeded { .. } => {
                    panic!("Resolve must expose its inner error")
                }
            }
        }
        BitmapAuditError::Universe(_) => panic!("Traversal variant must expose a source"),
    }
}

#[test]
fn test_bitmap_reachability_audit_dedupes_shared_hash_missing_from_universe() {
    // `universe` deliberately omits a hash the walk actually reaches, so
    // `bitmap_node_reachability_audit` must fall back to `visited_outside_universe`
    // for it. Two roots share that same out-of-universe subtree, so the
    // resolver must still only be asked to resolve it once across the whole
    // walk — proving the outside-universe fallback set is doing real dedup,
    // not just being populated and ignored.
    let key = b"outside_universe_key";
    let shared_leaf: Arc<HamtNode<u64, u64>> = Arc::new(HamtNode {
        datamap: 1,
        nodemap: 0,
        leaves: vec![(1_u64, 100_u64)],
        children: vec![],
        structural_hash: HamtNode::compute_structural_hash(key, 1, 0, &[(1, 100)], &[]),
    });

    // root_a and root_b each keep one leaf of their own (in different slots,
    // so their structural hashes differ) alongside a shared reference to the
    // same lazy child, `shared_leaf` — the case where dedup can't just rely
    // on the root-level check short-circuiting the whole walk.
    let root_a_leaves = [(2_u64, 200_u64)];
    let root_a_children = [NodeRef::<u64, u64>::Lazy(shared_leaf.structural_hash)];
    let root_a: Arc<HamtNode<u64, u64>> = Arc::new(HamtNode {
        datamap: 0b01,
        nodemap: 0b10,
        leaves: root_a_leaves.to_vec(),
        children: vec![NodeRef::Lazy(shared_leaf.structural_hash)],
        structural_hash: HamtNode::compute_structural_hash(
            key,
            0b01,
            0b10,
            &root_a_leaves,
            &root_a_children,
        ),
    });
    let root_b_leaves = [(3_u64, 300_u64)];
    let root_b_children = [NodeRef::<u64, u64>::Lazy(shared_leaf.structural_hash)];
    let root_b: Arc<HamtNode<u64, u64>> = Arc::new(HamtNode {
        datamap: 0b01,
        nodemap: 0b10,
        leaves: root_b_leaves.to_vec(),
        children: vec![NodeRef::Lazy(shared_leaf.structural_hash)],
        structural_hash: HamtNode::compute_structural_hash(
            key,
            0b01,
            0b10,
            &root_b_leaves,
            &root_b_children,
        ),
    });
    assert_ne!(
        root_a.structural_hash, root_b.structural_hash,
        "root_a and root_b must be distinct roots for this test to be meaningful"
    );

    let resolve_count = std::cell::Cell::new(0_u32);
    let mut resolver = |hash: &StructuralHash| -> Result<Arc<HamtNode<u64, u64>>, ()> {
        assert_eq!(*hash, shared_leaf.structural_hash);
        resolve_count.set(resolve_count.get() + 1);
        Ok(shared_leaf.clone())
    };

    // `universe` only covers the two roots' own hashes, not the shared leaf
    // they both lazily reference.
    let universe = vec![root_a.structural_hash, root_b.structural_hash];

    let bitmap_audit = bitmap_node_reachability_audit(&vec![root_a.clone(), root_b.clone()], &universe, &mut resolver)
    .expect("bitmap audit should succeed");

    assert_eq!(
        resolve_count.get(),
        1,
        "shared out-of-universe subtree must be resolved and walked only once"
    );
    // Both roots are in `universe` and reachable from themselves.
    assert_eq!(bitmap_audit.reachable.len(), 2);
    assert_eq!(bitmap_audit.unreachable.len(), 0);
}

#[test]
fn test_unreachable_node_hashes_shares_subtrees_across_roots() {
    let key = b"dummy_server_key";

    // Same shared-child fixture used by
    // `test_walk_reachable_node_hashes_skips_shared_lazy_child_without_resolving`:
    // both roots reference `shared_leaf`, so it must never show up as
    // unreachable, and the resolver must only be asked to resolve it once
    // across the whole multi-root audit.
    let shared_leaf = Arc::new(HamtNode {
        datamap: 1,
        nodemap: 0,
        leaves: vec![(1_u64, 100_u64)],
        children: vec![],
        structural_hash: HamtNode::compute_structural_hash(key, 1, 0, &[(1, 100)], &[]),
    });
    let unique_leaf_a = Arc::new(HamtNode {
        datamap: 1,
        nodemap: 0,
        leaves: vec![(2_u64, 200_u64)],
        children: vec![],
        structural_hash: HamtNode::compute_structural_hash(key, 1, 0, &[(2, 200)], &[]),
    });
    // An orphan leaf that neither root references at all.
    let orphan_leaf = Arc::new(HamtNode {
        datamap: 1,
        nodemap: 0,
        leaves: vec![(4_u64, 400_u64)],
        children: vec![],
        structural_hash: HamtNode::compute_structural_hash(key, 1, 0, &[(4, 400)], &[]),
    });

    let shared_lazy = NodeRef::<u64, u64>::Lazy(shared_leaf.structural_hash);
    let unique_a_lazy = NodeRef::<u64, u64>::Lazy(unique_leaf_a.structural_hash);

    let root_a = Arc::new(HamtNode {
        datamap: 0,
        nodemap: 0b11,
        leaves: vec![],
        children: vec![shared_lazy.clone(), unique_a_lazy.clone()],
        structural_hash: HamtNode::compute_structural_hash(
            key,
            0,
            0b11,
            &[],
            &[shared_lazy.clone(), unique_a_lazy.clone()],
        ),
    });
    // root_b only references the shared child, wrapped so its own hash
    // differs from root_a's.
    let root_b = Arc::new(HamtNode {
        datamap: 0,
        nodemap: 1,
        leaves: vec![],
        children: vec![shared_lazy.clone()],
        structural_hash: HamtNode::compute_structural_hash(
            key,
            0,
            1,
            &[],
            core::slice::from_ref(&shared_lazy),
        ),
    });

    let mut shared_resolve_count = 0_usize;
    let mut resolver = |hash: &StructuralHash| -> Result<Arc<HamtNode<u64, u64>>, ()> {
        if *hash == shared_leaf.structural_hash {
            shared_resolve_count = shared_resolve_count.saturating_add(1);
            Ok(shared_leaf.clone())
        } else if *hash == unique_leaf_a.structural_hash {
            Ok(unique_leaf_a.clone())
        } else {
            panic!("unexpected lazy resolution: {hash:?}")
        }
    };

    let universe = [
        root_a.structural_hash,
        root_b.structural_hash,
        shared_leaf.structural_hash,
        unique_leaf_a.structural_hash,
        orphan_leaf.structural_hash,
    ];

    let unreachable =
        unreachable_node_hashes(&vec![root_a, root_b], &universe, &mut resolver)
            .expect("audit should succeed");

    assert_eq!(
        unreachable,
        vec![orphan_leaf.structural_hash],
        "only the never-referenced leaf should be reported unreachable"
    );
    assert_eq!(
        shared_resolve_count, 1,
        "the shared child must be resolved once across both roots, not once per root"
    );
}

#[test]
fn test_unreachable_node_hashes_empty_roots_reports_entire_universe() {
    let root = Arc::new(HamtNode::<u64, u64> {
        datamap: 1,
        nodemap: 0,
        leaves: vec![(1, 100)],
        children: vec![],
        structural_hash: [0xEE; 32],
    });
    let mut resolver = |_hash: &StructuralHash| -> Result<Arc<HamtNode<u64, u64>>, ()> {
        unreachable!("no roots means nothing is ever walked")
    };

    let universe = [root.structural_hash];
    let unreachable = unreachable_node_hashes(&vec![], &universe, &mut resolver)
        .expect("audit over an empty root set should still succeed");

    assert_eq!(
        unreachable, universe,
        "with no live roots, every node in the universe is a GC candidate"
    );
}

#[test]
fn test_unreachable_node_hashes_propagates_resolver_error_without_partial_result() {
    let key = b"dummy_server_key";
    let leaf = Arc::new(HamtNode {
        datamap: 1,
        nodemap: 0,
        leaves: vec![(1_u64, 100_u64)],
        children: vec![],
        structural_hash: HamtNode::compute_structural_hash(key, 1, 0, &[(1, 100)], &[]),
    });
    let leaf_lazy = NodeRef::<u64, u64>::Lazy(leaf.structural_hash);
    let root = Arc::new(HamtNode {
        datamap: 0,
        nodemap: 1,
        leaves: vec![],
        children: vec![leaf_lazy.clone()],
        structural_hash: HamtNode::compute_structural_hash(
            key,
            0,
            1,
            &[],
            core::slice::from_ref(&leaf_lazy),
        ),
    });

    let mut resolver = |_hash: &StructuralHash| -> Result<Arc<HamtNode<u64, u64>>, &'static str> {
        Err("resolve failed")
    };

    let universe = [root.structural_hash, leaf.structural_hash];
    let err = unreachable_node_hashes(&vec![root], &universe, &mut resolver)
        .expect_err(
        "resolver failure during the mark phase must propagate, not degrade to a partial answer",
    );
    assert_eq!(
        err,
        HamtTraversalError::Resolve("resolve failed")
    );
}

#[test]
fn test_refcount_table_apply_new_increments() {

    let key = b"dummy_server_key";
    let entries: Vec<(u64, u64)> = (0_u64..8).map(|i| (i, i)).collect();
    let root = build_hamt(key, entries).expect("build root");
    let hashes: Vec<StructuralHash> =
        reachable_node_hashes(&root, &mut panic_resolver).expect("walk");

    let mut table = RefcountTable::new();
    assert!(table.is_empty());
    table.apply_new(&hashes);

    for h in &hashes {
        assert_eq!(table.count(h), 1);
    }
    assert_eq!(table.len(), hashes.len());

    // Applying the same new_node_hashes twice (e.g. two roots that happen to
    // share the same subtree) accumulates, not overwrites.
    table.apply_new(&hashes);
    for h in &hashes {
        assert_eq!(table.count(h), 2);
    }
}

#[test]
fn test_refcount_table_apply_superseded_decrements_and_reports_zeroed() {

    let key = b"dummy_server_key";
    let entries: Vec<(u64, u64)> = (0_u64..8).map(|i| (i, i)).collect();
    let root = build_hamt(key, entries).expect("build root");
    let hashes: Vec<StructuralHash> =
        reachable_node_hashes(&root, &mut panic_resolver).expect("walk");

    let mut table = RefcountTable::new();
    table.apply_new(&hashes);

    let zeroed = table
        .apply_superseded(&hashes)
        .expect("decrementing exactly what was incremented must succeed");

    let mut zeroed_sorted = zeroed.clone();
    zeroed_sorted.sort_unstable();
    let mut hashes_sorted = hashes.clone();
    hashes_sorted.sort_unstable();
    assert_eq!(
        zeroed_sorted, hashes_sorted,
        "every hash incremented exactly once must reach zero and be reported"
    );
    assert!(
        table.is_empty(),
        "a fully-decremented table has nothing left tracked"
    );
}

#[test]
fn test_refcount_table_shared_hash_not_zeroed_by_one_of_two_referrers() {

    // Two roots sharing a subtree: incrementing for both, then superseding
    // only one, must not zero out the shared hash -- the other root still
    // references it. This is exactly the structural-sharing scenario the
    // module doc's "branching hazard" note warns about; this test covers the
    // case that note says a *linear-chain* diff+retire correctly handles
    // (the shared hash simply never appears in either side's superseded
    // list unless truly unreferenced).
    let key = b"dummy_server_key";
    let shared_entries: Vec<(u64, u64)> = (0_u64..8).map(|i| (i, i)).collect();
    let root_a = build_hamt(key, shared_entries.clone()).expect("build root_a");
    let root_b = build_hamt(key, shared_entries).expect("build root_b (identical content)");
    assert_eq!(
        root_a.structural_hash, root_b.structural_hash,
        "identical content must structurally share, matching this test's premise"
    );

    let hashes: Vec<StructuralHash> =
        reachable_node_hashes(&root_a, &mut panic_resolver).expect("walk");

    let mut table = RefcountTable::new();
    // Both roots persisted: each contributes its own increments.
    table.apply_new(&hashes);
    table.apply_new(&hashes);
    for h in &hashes {
        assert_eq!(table.count(h), 2);
    }

    // root_a retired: decrement once. Nothing should zero -- root_b still
    // references every one of these hashes.
    let zeroed = table
        .apply_superseded(&hashes)
        .expect("decrementing one of two referrers must succeed");
    assert!(
        zeroed.is_empty(),
        "shared hashes must not be reported as GC candidates while root_b is still live"
    );
    for h in &hashes {
        assert_eq!(table.count(h), 1);
    }
}

#[test]
fn test_refcount_table_apply_superseded_underflow_is_atomic() {

    let key = b"dummy_server_key";
    let entries: Vec<(u64, u64)> = (0_u64..64).map(|i| (i, i)).collect();
    let root = build_hamt(key, entries).expect("build root");
    let hashes: Vec<StructuralHash> =
        reachable_node_hashes(&root, &mut panic_resolver).expect("walk");
    assert!(hashes.len() >= 2, "need at least 2 hashes for this test");

    let mut table = RefcountTable::new();
    // Only increment the first hash -- the rest are untracked (count 0).
    table.apply_new(&hashes[..1]);

    let before = table.clone();
    let err = table
        .apply_superseded(&hashes)
        .expect_err("decrementing untracked hashes must fail, not silently no-op");
    assert!(matches!(err, RefcountUnderflow { .. }));
    assert_eq!(
        err.message(),
        "refcount underflow: decremented a hash with no tracked positive count \
         (missing or out-of-order apply_new, or a double decrement)"
    );

    // Atomicity: the tracked hash's count must be untouched, even though it
    // appeared earlier in `hashes` than the untracked ones that caused the
    // failure -- apply_superseded validates the whole batch before mutating
    // anything.
    assert_eq!(table.count(&hashes[0]), before.count(&hashes[0]));
    assert_eq!(table.len(), before.len());
}

#[test]
fn test_refcount_table_underflow_reports_first_hash_in_input_order() {

    let key = b"ordered_underflow";
    let root = build_hamt(key, (0_u64..32).map(|i| (i, i)).collect()).expect("build root");
    let hashes = reachable_node_hashes(&root, &mut panic_resolver).expect("walk");
    assert!(hashes.len() >= 2);

    let mut table = RefcountTable::new();
    table.apply_new(&[hashes[1]]);
    let err = table
        .apply_superseded(&[hashes[0], hashes[1]])
        .expect_err("the first hash is untracked");
    assert_eq!(err, RefcountUnderflow { hash: hashes[0] });
    assert_eq!(table.count(&hashes[1]), 1, "validation remains atomic");
}

#[test]
fn test_refcount_table_apply_superseded_repeated_hash_in_one_batch() {

    let key = b"dummy_server_key";
    let entries: Vec<(u64, u64)> = (0_u64..4).map(|i| (i, i)).collect();
    let root = build_hamt(key, entries).expect("build root");
    let hash = root.structural_hash;

    let mut table = RefcountTable::new();
    table.apply_new(&[hash, hash, hash]); // count = 3

    // A batch that repeats the same hash twice should decrement it by 2, not
    // treat repeats as redundant.
    let zeroed = table
        .apply_superseded(&[hash, hash])
        .expect("2 decrements against a count of 3 must succeed");
    assert!(
        zeroed.is_empty(),
        "count should be 1, not zero, after this batch"
    );
    assert_eq!(table.count(&hash), 1);

    let zeroed = table
        .apply_superseded(&[hash])
        .expect("final decrement must succeed");
    assert_eq!(zeroed, vec![hash]);
    assert_eq!(table.count(&hash), 0);
}

#[test]
fn test_refcount_table_bootstrap_seeds_counts_per_occurrence() {

    let key = b"dummy_server_key";
    let entries: Vec<(u64, u64)> = (0_u64..4).map(|i| (i, i)).collect();
    let root = build_hamt(key, entries).expect("build root");
    let hashes: Vec<StructuralHash> =
        reachable_node_hashes(&root, &mut panic_resolver).expect("walk");

    let mut table = RefcountTable::new();
    // Bootstrapping from 3 roots that all reference the same tree (as a
    // real caller would by walking each currently-live root and chaining
    // the results) must count each hash 3 times, not once.
    table.bootstrap(&hashes);
    table.bootstrap(&hashes);
    table.bootstrap(&hashes);

    for h in &hashes {
        assert_eq!(table.count(h), 3);
    }
}

/// End-to-end: drive a real `RefcountTable` from a real
/// [`diff_node_hashes`] output across an actual HAMT mutation, and confirm
/// the result agrees with an independent full reachability walk -- the same
/// property [`assert_diff_is_gc_safe`] checks for `diff_node_hashes` itself,
/// now checked through the incremental table a caller would actually use.
#[test]
fn test_refcount_table_end_to_end_with_diff_node_hashes_matches_reachability() {

    let key = b"dummy_server_key";
    let entries: Vec<(u64, u64)> = (0_u64..64).map(|i| (i, i.wrapping_mul(7))).collect();
    let root_a = build_hamt(key, entries).expect("build root_a");

    let mut resolver = |_hash: &StructuralHash| -> Result<Arc<HamtNode<u64, u64>>, ()> {
        unreachable!("fully resolved tree, no lazy children")
    };

    let (root_b, _displaced) =
        insert(&root_a, key, 1000_u64, 9999_u64, &mut resolver).expect("insert should succeed");

    let delta = diff_node_hashes(&root_a, &root_b, &mut resolver)
        .expect("diff should succeed");

    // Bootstrap as if root_a already existed in the store.
    let root_a_hashes: Vec<StructuralHash> =
        reachable_node_hashes(&root_a, &mut resolver).expect("walk root_a");
    let mut table = RefcountTable::new();
    table.bootstrap(&root_a_hashes);

    // New root persisted: increment immediately (per the timing contract).
    table.apply_new(&delta.new_node_hashes);

    // Old root retired later, and root_b is its one and only live successor
    // here (a strict linear chain -- exactly the case the module doc allows
    // apply_superseded to be the sole decrement source for).
    let zeroed = table
        .apply_superseded(&delta.superseded_node_hashes)
        .expect("superseding root_a's own spine, which bootstrap seeded, must succeed");

    // Cross-check against an independent full walk: everything the table
    // reports as zeroed must be unreachable from root_b, and everything
    // still tracked with a nonzero count must be reachable from root_b.
    let reachable_b: BTreeSet<StructuralHash> =
        reachable_node_hashes(&root_b, &mut resolver)
            .expect("walk root_b")
            .into_iter()
            .collect();

    for hash in &zeroed {
        assert!(
            !reachable_b.contains(hash),
            "a hash the table reports as GC-safe must not be reachable from the live root"
        );
    }
    for hash in &root_a_hashes {
        if reachable_b.contains(hash) {
            assert!(
                table.count(hash) > 0,
                "a hash still reachable from root_b must still have a positive tracked count"
            );
        }
    }

    // Nothing zeroed is reachable from any other live root: there are none
    // besides root_b here.
    assert_eq!(RefcountTable::first_reachable_elsewhere(&zeroed, &[]), None);
}

/// A hash reported zeroed by `apply_superseded` that is still reachable from a
/// different live root must be told.
#[test]
fn test_refcount_debug_guard_catches_branching_hazard() {

    let key = b"dummy_server_key";
    let entries: Vec<(u64, u64)> = (0_u64..8).map(|i| (i, i)).collect();
    let root = build_hamt(key, entries).expect("build root");
    let hashes: Vec<StructuralHash> =
        reachable_node_hashes(&root, &mut panic_resolver).expect("walk");
    assert_ne!(hashes, [] as [[u8; 32]; 0]);

    // Simulate: `apply_superseded` reported `hashes[0]` as zeroed, but it is
    // in fact still reachable from a different, still-live root (the
    // "forked resolution branch" case the module docs warn about).
    let zeroed = vec![hashes[0]];
    let other_live_roots_reachable = vec![hashes[0]];

    assert_eq!(
        RefcountTable::first_reachable_elsewhere(&zeroed, &other_live_roots_reachable),
        Some(hashes[0])
    );
}

#[test]
fn test_universe_too_large_from_index_too_large_preserves_distinct_count() {
    let err: UniverseTooLarge = IndexTooLarge {
        distinct_count: 4_294_967_297,
        allocation_failed: false,
    }
    .into();
    assert_eq!(err.distinct_count, 4_294_967_297);
}

#[test]
fn bounded_index_counts_past_its_bound() {
    let universe: Vec<StructuralHash> = vec![[3; 32], [1; 32], [3; 32], [2; 32]];
    assert_eq!(
        distinct_bounded(&universe, 3),
        Ok(vec![[3; 32], [1; 32], [2; 32]])
    );
    assert_eq!(
        distinct_bounded(&universe, 2),
        Err(IndexTooLarge {
            distinct_count: 3,
            allocation_failed: false,
        })
    );
}
