use rezzy::hamt::audit::node_reachability_audit;
use rezzy::hamt::codec::HamtCodec;
use rezzy::hamt::gc::RefcountTable;
use rezzy::hamt::node::{bucket_index, key_path_hash, HAMT_MAX_DEPTH};
use rezzy::hamt::{
    build_hamt, build_hamt_with_key_hash, diff_node_hashes, persist_chain,
    persist_chain_with_key_hash, persist_mutation, persist_mutation_with_key_hash,
    persist_mutations, persist_mutations_with_key_hash, reachable_node_hashes, HamtNode, NodeRef,
    PersistedInternalNode, StructuralHash,
};
use std::cell::Cell;
use std::collections::{BTreeMap, BTreeSet, HashMap};
use std::sync::Arc;

/// A custom routing hash spread enough to actually force multiple internal
/// nodes (unlike `custom_routing_hash`, which is hardcoded to two keys) --
/// puts `key`'s big-endian bytes straight into the hash so `persist_*`
/// against a [`build_hamt_with_key_hash`] tree has real spine structure to
/// get wrong if it ignores the custom routing.
fn linear_key_hash(key: &u64) -> StructuralHash {
    let mut hash = [0_u8; 32];
    hash[..8].copy_from_slice(&key.to_be_bytes());
    hash
}

/// `persist_mutation`/`persist_mutations`/`persist_chain` silently corrupt
/// trees built with [`build_hamt_with_key_hash`] because they
/// always route with the default keyed structural hash. Their
/// `_with_key_hash` counterparts must route mutations the same way
/// `insert_with_key_hash`/`remove_with_key_hash` do, and produce a tree
/// that agrees with an independent rebuild from the same final key set.
#[test]
fn test_persist_mutation_with_key_hash_matches_direct_mutation_and_rebuild() {
    let key = b"dummy_server_key";
    let mut resolver =
        |_hash: &StructuralHash| -> Result<Arc<HamtNode<u64, u64>>, ()> { unreachable!() };

    let initial: Vec<(u64, u64)> = (0_u64..40).map(|i| (i, i * 10)).collect();
    let root = build_hamt_with_key_hash(key, initial.clone(), linear_key_hash)
        .expect("build with custom hash should work");
    // Sanity: this tree actually has internal structure, not just a leaf
    // fan-out, so a wrong-hash persist has real spine nodes to get wrong.
    assert!(root.nodemap != 0, "test setup needs a multi-level tree");

    // persist_mutation_with_key_hash: insert a new key.
    let (root, displaced, created) = persist_mutation_with_key_hash(
        &root,
        key,
        1000_u64,
        Some(9999_u64),
        linear_key_hash,
        &mut resolver,
    )
    .expect("persist insert with custom hash should work");
    assert_eq!(displaced, None);
    assert!(!created.is_empty(), "insert should persist new spine nodes");
    assert_eq!(
        root.get_with_key_hash(&1000_u64, linear_key_hash),
        Some(&9999_u64)
    );
    for &(k, v) in &initial {
        assert_eq!(
            root.get_with_key_hash(&k, linear_key_hash),
            Some(&v),
            "existing entry {k} must survive the custom-hash persist"
        );
    }

    // persist_mutation_with_key_hash: remove an existing key.
    let (root, removed, created) = persist_mutation_with_key_hash(
        &root,
        key,
        5_u64,
        None,
        linear_key_hash,
        &mut resolver,
    )
    .expect("persist remove with custom hash should work");
    assert_eq!(removed, Some(50_u64));
    assert!(
        !created.is_empty(),
        "remove should persist rebuilt spine nodes"
    );
    assert_eq!(root.get_with_key_hash(&5_u64, linear_key_hash), None);

    // Cross-check against an independent rebuild from the same final key set
    // -- this is the real correctness bar, since a routing bug can silently
    // "work" for `get_with_key_hash` immediately after insert while leaving
    // the tree in a state that diverges from `build_hamt_with_key_hash`.
    let mut expected_entries: Vec<(u64, u64)> =
        initial.into_iter().filter(|&(k, _)| k != 5).collect();
    expected_entries.push((1000, 9999));
    let expected = build_hamt_with_key_hash(key, expected_entries, linear_key_hash)
        .expect("rebuild should work");
    assert_eq!(root.structural_hash, expected.structural_hash);
}

/// `persist_mutations_with_key_hash` and `persist_chain_with_key_hash` must
/// each also route through the custom hash for a whole batch, not just a
/// single mutation.
#[test]
fn test_persist_mutations_and_chain_with_key_hash() {
    let key = b"dummy_server_key";
    let mut resolver =
        |_hash: &StructuralHash| -> Result<Arc<HamtNode<u64, u64>>, ()> { unreachable!() };

    let initial: Vec<(u64, u64)> = (0_u64..20).map(|i| (i, i * 10)).collect();
    let root = build_hamt_with_key_hash(key, initial, linear_key_hash)
        .expect("build with custom hash should work");

    let batch: Vec<(u64, Option<u64>)> = vec![(100, Some(1)), (5, None), (101, Some(2)),];

    let (batched_root, displaced_vec, created) = persist_mutations_with_key_hash(
        &root,
        key,
        batch.clone(),
        linear_key_hash,
        &mut resolver,
    )
    .expect("persist_mutations_with_key_hash should work");
    assert_eq!(displaced_vec, vec![None, Some(50_u64), None]);
    assert_ne!(created, [] as [([u8; 32], Vec<u8>); 0]);
    assert_eq!(
        batched_root.get_with_key_hash(&100_u64, linear_key_hash),
        Some(&1_u64)
    );
    assert_eq!(
        batched_root.get_with_key_hash(&101_u64, linear_key_hash),
        Some(&2_u64)
    );
    assert_eq!(
        batched_root.get_with_key_hash(&5_u64, linear_key_hash),
        None
    );

    let chain_steps =
        persist_chain_with_key_hash(&root, key, batch, linear_key_hash, &mut resolver)
            .expect("persist_chain_with_key_hash should work");
    let chained_root = &chain_steps.last().expect("batch is non-empty").root;

    // Both batch styles must converge to the same final structural hash as
    // each other and as a direct rebuild.
    assert_eq!(batched_root.structural_hash, chained_root.structural_hash);

    let expected_entries: Vec<(u64, u64)> = (0_u64..20)
        .filter(|&k| k != 5)
        .map(|k| (k, k * 10))
        .chain([(100, 1), (101, 2)])
        .collect();
    let rebuilt = build_hamt_with_key_hash(key, expected_entries, linear_key_hash)
        .expect("rebuild should work");
    assert_eq!(batched_root.structural_hash, rebuilt.structural_hash);
}

/// A no-op custom-hash mutation (removing a key that isn't present) must
/// leave the root's structural hash unchanged and report no newly created
/// nodes -- `persist_mutation_with_key_hash` clears its scratch `created`
/// buffer when the new root turns out identical to `prev_root`, rather than
/// reporting phantom nodes that were built (via `finalize_remove_root`'s
/// no-op path) but never actually became part of the published tree.
#[test]
fn test_persist_mutation_with_key_hash_noop_reports_no_created_nodes() {
    let key = b"dummy_server_key";
    let mut resolver =
        |_hash: &StructuralHash| -> Result<Arc<HamtNode<u64, u64>>, ()> { unreachable!() };

    let initial: Vec<(u64, u64)> = (0_u64..10).map(|i| (i, i * 10)).collect();
    let root = build_hamt_with_key_hash(key, initial, linear_key_hash)
        .expect("build with custom hash should work");

    let (new_root, displaced, created) = persist_mutation_with_key_hash(
        &root,
        key,
        9999_u64, // absent key
        None,
        linear_key_hash,
        &mut resolver,
    )
    .expect("no-op remove should still succeed");

    assert_eq!(displaced, None);
    assert_eq!(new_root.structural_hash, root.structural_hash);
    assert!(
        created.is_empty(),
        "a no-op mutation must not report any created nodes"
    );
}

/// A batch of custom-hash mutations that nets out to the identity (insert
/// then remove the same key) must take `persist_mutations_with_key_hash`'s
/// early-return no-op path: unchanged root, no diff pass, no created nodes.
#[test]
fn test_persist_mutations_with_key_hash_noop_batch_short_circuits() {
    let key = b"dummy_server_key";
    let mut resolver =
        |_hash: &StructuralHash| -> Result<Arc<HamtNode<u64, u64>>, ()> { unreachable!() };

    let initial: Vec<(u64, u64)> = (0_u64..10).map(|i| (i, i * 10)).collect();
    let root = build_hamt_with_key_hash(key, initial, linear_key_hash)
        .expect("build with custom hash should work");

    // Net effect is identity: insert a new key, then remove it again.
    let batch: Vec<(u64, Option<u64>)> = vec![(1000, Some(1)), (1000, None)];

    let (final_root, displaced_vec, created) = persist_mutations_with_key_hash(
        &root,
        key,
        batch,
        linear_key_hash,
        &mut resolver,
    )
    .expect("net-identity batch should still succeed");

    assert_eq!(displaced_vec, vec![None, Some(1_u64)]);
    assert_eq!(final_root.structural_hash, root.structural_hash);
    assert!(
        created.is_empty(),
        "a net-identity batch must not report any created nodes"
    );
}

#[test]
fn test_persist_mutations_insert_and_remove() {
    let structural_key = b"persist_mutations_test";
    let root = build_hamt::<u64, u64>(structural_key, vec![]).expect("empty root");
    let mut resolver = |_hash: &StructuralHash| -> Result<Arc<HamtNode<u64, u64>>, ()> {
        unreachable!("empty root has no lazy children")
    };

    let (new_root, displaced, created) = persist_mutations(
        &root,
        structural_key,
        vec![(1_u64, Some(10_u64)), (999_u64, None)],
        &mut resolver,
    )
    .expect("persisting mutations should succeed");

    assert_eq!(displaced, vec![None, None]);
    assert_eq!(new_root.get(structural_key, &1), Some(&10));
    assert_ne!(created, [] as [([u8; 32], Vec<u8>); 0]);
}

#[test]
fn test_persist_mutations_noop_and_remove_existing() {
    let structural_key = b"persist_mutations_noop";
    let root = build_hamt(structural_key, vec![(1_u64, 10_u64), (2_u64, 20_u64)]).expect("root");
    let mut resolver = |_hash: &StructuralHash| -> Result<Arc<HamtNode<u64, u64>>, ()> {
        unreachable!("root has no lazy children")
    };

    let (same_root, displaced, created) = persist_mutations(
        &root,
        structural_key,
        Vec::<(u64, Option<u64>)>::new(),
        &mut resolver,
    )
    .expect("empty mutation batch should succeed");
    assert_eq!(same_root.structural_hash, root.structural_hash);
    assert_eq!(displaced, [] as [Option<u64>; 0]);
    assert_eq!(created, [] as [([u8; 32], Vec<u8>); 0]);

    let (removed_root, displaced, created) =
        persist_mutations(&root, structural_key, vec![(1_u64, None)], &mut resolver)
            .expect("remove mutation should succeed");
    assert_eq!(displaced, vec![Some(10)]);
    assert_eq!(removed_root.get(structural_key, &1), None);
    assert_eq!(removed_root.get(structural_key, &2), Some(&20));
    assert_ne!(created, [] as [([u8; 32], Vec<u8>); 0]);

    let (single_removed_root, displaced, created) =
        persist_mutation(&root, structural_key, 1_u64, None, &mut resolver)
            .expect("single remove mutation should succeed");
    assert_eq!(displaced, Some(10));
    assert_eq!(single_removed_root.get(structural_key, &2), Some(&20));
    assert_ne!(created, [] as [([u8; 32], Vec<u8>); 0]);
}

#[test]
fn test_persist_mutations_emits_resolved_child_nodes() {
    let structural_key = b"persist_mutations_child";
    let first = 0_u64;
    let first_slot = bucket_index(&leaf_hash_for_key(structural_key, first), 0);
    let second = (1_u64..1_000_000)
        .find(|candidate| {
            *candidate != first
                && bucket_index(&leaf_hash_for_key(structural_key, *candidate), 0) == first_slot
        })
        .expect("find colliding key");
    let root =
        build_hamt(structural_key, vec![(first, 10_u64), (second, 20_u64)]).expect("colliding root");
    assert!(
        !root.children.is_empty(),
        "collision should create a child node"
    );

    let third = (second + 1..1_000_000)
        .find(|candidate| {
            bucket_index(&leaf_hash_for_key(structural_key, *candidate), 0) == first_slot
        })
        .expect("find another colliding key");
    let mut resolver = |_hash: &StructuralHash| -> Result<Arc<HamtNode<u64, u64>>, ()> {
        unreachable!("root is fully resolved")
    };
    let (new_root, _, created) = persist_mutations(
        &root,
        structural_key,
        vec![(third, Some(30_u64))],
        &mut resolver,
    )
    .expect("persisting child mutation should succeed");

    assert_eq!(new_root.get(structural_key, &third), Some(&30));
    assert!(
        created.len() >= 2,
        "root and changed child should be emitted"
    );
}

fn leaf_hash_for_key(key: &[u8], value: u64) -> StructuralHash {
    key_path_hash(key, &value)
}

#[derive(Default)]
struct FakeNodeStore {
    storage: HashMap<StructuralHash, Vec<u8>>,
    resolutions: Cell<usize>,
}

impl FakeNodeStore {
    fn new() -> Self {
        Self::default()
    }

    fn store_tree<K: HamtCodec + Clone, V: HamtCodec + Clone>(
        &mut self,
        node: &Arc<HamtNode<K, V>>,
    ) {
        let bytes = PersistedInternalNode::from(node.as_ref()).encode_v1();
        self.storage.insert(node.structural_hash, bytes);
        for child in &node.children {
            if let NodeRef::Resolved(child_node) = child {
                self.store_tree(child_node);
            }
        }
    }

    fn resolver<'a, K, V>(
        &'a self,
        structural_key: &'a [u8],
    ) -> impl FnMut(&StructuralHash) -> Result<Arc<HamtNode<K, V>>, &'static str> + 'a
    where
        K: HamtCodec,
        V: HamtCodec,
    {
        |hash| {
            self.resolutions
                .set(self.resolutions.get().saturating_add(1));
            let bytes = self.storage.get(hash).ok_or("node missing in fake store")?;
            PersistedInternalNode::<K, V>::decode_v1_verified(bytes, structural_key, *hash)
                .map(Arc::new)
                .map_err(|_| "failed to verify persisted node")
        }
    }
}

#[test]
fn test_persist_mutation_rebuild_equivalence() {
    let key = b"prop_test_server_key";
    let mut state: BTreeMap<u32, u64> = BTreeMap::new();
    for i in 0..50 {
        state.insert(i, u64::from(i) * 10);
    }

    let mut current_root = build_hamt(key, state.clone().into_iter().collect()).expect("build initial hamt");

    let mut no_resolver = |_h: &StructuralHash| -> Result<Arc<HamtNode<u32, u64>>, ()> {
        panic!("unexpected lazy resolution in memory test")
    };

    // Perform sequence of 100 pseudo-random mutations (inserts, updates, deletes)
    let mut rng_state: u64 = 0xdead_beef;
    let mut next_rnd = || -> u64 {
        rng_state ^= rng_state << 13;
        rng_state ^= rng_state >> 7;
        rng_state ^= rng_state << 17;
        rng_state
    };

    for _ in 0..100 {
        let op = next_rnd() % 3;
        let k = (next_rnd() % 100) as u32;
        let v = next_rnd() % 1000;

        let opt_val = if op == 0 {
            // Remove
            state.remove(&k);
            None
        } else {
            // Insert / Update
            state.insert(k, v);
            Some(v)
        };

        let (new_root, _, created) =
            persist_mutation(&current_root, key, k, opt_val, &mut no_resolver)
                .expect("persist_mutation must succeed");

        // Rebuild from scratch and assert identical structural hash
        let rebuilt_root = build_hamt(key, state.clone().into_iter().collect()).expect("rebuild hamt");
        assert_eq!(
            new_root.structural_hash, rebuilt_root.structural_hash,
            "incremental persist_mutation root must match from-scratch rebuild exactly"
        );

        if new_root.structural_hash == current_root.structural_hash {
            assert!(
                created.is_empty(),
                "noop mutation must produce zero created nodes"
            );
        } else {
            assert!(
                !created.is_empty(),
                "real state change must produce at least one created node"
            );
        }

        current_root = new_root;
    }
}

#[test]
fn test_lazy_resolver_mutation_and_resolution_bounds() {
    let key = b"lazy_resolver_test_key";
    let entries: Vec<(u32, u64)> = (0_u32..60_u32).map(|i| (i, u64::from(i) * 100)).collect();
    let resident_root = build_hamt(key, entries).expect("build tree");

    let mut store = FakeNodeStore::new();
    store.store_tree(&resident_root);

    // Decode root node directly from store so all its children are NodeRef::Lazy
    let root_bytes = store
        .storage
        .get(&resident_root.structural_hash)
        .expect("root in store");
    let lazy_root = Arc::new(
        PersistedInternalNode::<u32, u64>::decode_v1_verified(
            root_bytes,
            key,
            resident_root.structural_hash,
        )
        .expect("verified decode root"),
    );

    let mut resident_resolver =
        |_h: &StructuralHash| -> Result<Arc<HamtNode<u32, u64>>, &'static str> {
            panic!("unexpected resolution on resident root")
        };

    // Mutate multiple keys to test both root leaves and child subtrees.
    let mut exercised_lazy_child = false;
    for target_key in [5_u32, 25_u32, 45_u32, 999_u32] {
        let new_val = Some(u64::from(target_key) * 999);

        let (res_new_root, res_disp, res_created) = persist_mutation(
            &resident_root,
            key,
            target_key,
            new_val,
            &mut resident_resolver,
        )
        .expect("resident persist_mutation succeeds");

        store.resolutions.set(0);
        let mut lazy_res = store.resolver(key);
        let (lazy_new_root, lazy_disp, lazy_created) =
            persist_mutation(&lazy_root, key, target_key, new_val, &mut lazy_res)
                .expect("lazy persist_mutation succeeds");

        // Invariant assertions
        assert_eq!(res_new_root.structural_hash, lazy_new_root.structural_hash);
        assert_eq!(res_disp, lazy_disp);
        assert_eq!(res_created.len(), lazy_created.len());

        let res_hashes: BTreeSet<StructuralHash> =
            res_created.iter().map(|(h, _)| *h).collect();
        let lazy_hashes: BTreeSet<StructuralHash> =
            lazy_created.iter().map(|(h, _)| *h).collect();
        assert_eq!(
            res_hashes, lazy_hashes,
            "created node sets must be identical"
        );

        // Resolver invocations must be bounded by trie depth (proves zero double resolution)
        assert!(
            store.resolutions.get() <= HAMT_MAX_DEPTH,
            "resolutions ({}) must be bounded by HAMT_MAX_DEPTH ({})",
            store.resolutions.get(),
            HAMT_MAX_DEPTH
        );
        exercised_lazy_child |= store.resolutions.get() > 0;
    }
    assert!(
        exercised_lazy_child,
        "fixture must exercise at least one lazy child resolution"
    );
}

#[test]
fn test_persist_chain_coverage() {
    let key = b"prop_chain_coverage_key";
    let prev_root =
        build_hamt(key, (0_u32..20_u32).map(|i| (i, u64::from(i) * 100)).collect()).expect("build root");

    let mut no_resolver = |_h: &StructuralHash| -> Result<Arc<HamtNode<u32, u64>>, ()> {
        panic!("unexpected lazy resolution in memory test")
    };

    let prev_reachable: BTreeSet<StructuralHash> =
        reachable_node_hashes(&prev_root, &mut no_resolver)
            .expect("reachable prev")
            .into_iter()
            .collect();

    let mutations = vec![
        (5_u32, Some(555_u64)),
        (100_u32, Some(1000_u64)),
        (2_u32, None),
        (101_u32, Some(1010_u64)),
        (102_u32, Some(1020_u64)),
        (100_u32, None),
        (5_u32, Some(500_u64)), // revert to original value
    ];

    let steps = persist_chain(&prev_root, key, mutations, &mut no_resolver)
        .expect("persist_chain must succeed");

    assert_eq!(steps.len(), 7);

    let mut cumulative_created = prev_reachable;
    for (i, step) in steps.iter().enumerate() {
        for (hash, bytes) in &step.created {
            PersistedInternalNode::<u32, u64>::decode_v1_verified(bytes, key, *hash)
                .expect("created node must verify against its storage key");
            cumulative_created.insert(*hash);
        }

        // Chain coverage invariant: every node reachable from root_i must be present
        // in cumulative_created (union of created_j for j<=i and reachable(prev_root))
        let root_i_reachable =
            reachable_node_hashes(&step.root, &mut no_resolver).expect("reachable step");
        for hash in &root_i_reachable {
            assert!(
                cumulative_created.contains(hash),
                "step {i}: node {hash:?} reachable from root_{i} was not created in any prior step"
            );
        }
    }
}

#[test]
fn test_persist_chain_refcount_closure_with_retirement() {
    let key = b"prop_refcount_closure_key";
    let prev_root =
        build_hamt(key, (0_u32..10_u32).map(|i| (i, u64::from(i))).collect()).expect("build root");

    let mut no_resolver = |_h: &StructuralHash| -> Result<Arc<HamtNode<u32, u64>>, ()> {
        panic!("unexpected lazy resolution in memory test")
    };

    let mutations = vec![
        (1_u32, Some(100_u64)),
        (2_u32, Some(200_u64)),
        (3_u32, Some(300_u64)),
        (1_u32, Some(1_u64)), // revert
        (4_u32, None),
    ];

    let steps = persist_chain(&prev_root, key, mutations, &mut no_resolver).expect("persist_chain");

    let mut table = RefcountTable::new();

    // Initial root refcounts
    table.bootstrap(&reachable_node_hashes(&prev_root, &mut no_resolver).expect("reachable"));

    // Apply per-step increments
    let mut all_created_hashes = Vec::new();
    for step in &steps {
        let step_hashes: Vec<StructuralHash> = step.created.iter().map(|(h, _)| *h).collect();
        table.apply_new(&step_hashes);
        all_created_hashes.extend(step_hashes);
    }

    let all_roots: Vec<Arc<HamtNode<u32, u64>>> = std::iter::once(prev_root.clone())
        .chain(steps.iter().map(|s| s.root.clone()))
        .collect();

    // Linearly retire root 0 (superseded by 1) and root 1 (superseded by 2)
    let delta_1 = diff_node_hashes(&all_roots[0], &all_roots[1], &mut no_resolver).expect("diff 1");
    let mut zeroed = table
        .apply_superseded(&delta_1.superseded_node_hashes)
        .expect("apply superseded 1");

    let delta_2 = diff_node_hashes(&all_roots[1], &all_roots[2], &mut no_resolver).expect("diff 2");
    zeroed.extend(
        table
            .apply_superseded(&delta_2.superseded_node_hashes)
            .expect("apply superseded 2"),
    );

    // Surviving roots: [2, 3, 4, 5]
    let surviving_roots = vec![
        all_roots[2].clone(),
        all_roots[3].clone(),
        all_roots[4].clone(),
        all_roots[5].clone(),
    ];

    let universe: Vec<StructuralHash> = reachable_node_hashes(&prev_root, &mut no_resolver)
        .expect("reachable")
        .into_iter()
        .chain(all_created_hashes)
        .collect();

    let audit =
        node_reachability_audit(&surviving_roots, &universe, &mut no_resolver)
            .expect("audit");

    // Invariant 1: Every node reachable from surviving roots MUST have positive count
    for hash in &audit.reachable {
        assert!(
            table.count(hash) > 0,
            "node {hash:?} reachable from surviving roots must have positive count"
        );
    }

    // Invariant 2: Every hash reported as a deletion candidate MUST be absent
    // from the full mark of all retained roots.
    assert!(
        !zeroed.is_empty(),
        "fixture must actually retire some nodes"
    );
    for hash in zeroed {
        assert!(
            audit.unreachable.contains(&hash),
            "zeroed node {hash:?} must be unreachable from every retained root"
        );
    }
}

#[test]
fn test_persist_chain_overwrite_then_revert() {
    let key = b"overwrite_revert_key";
    let root_0 = build_hamt(key, vec![(1_u32, 100_u64)]).expect("root 0");

    let mut no_resolver = |_h: &StructuralHash| -> Result<Arc<HamtNode<u32, u64>>, ()> {
        panic!("unexpected lazy resolution in memory test")
    };

    let mutations = vec![
        (1_u32, Some(200_u64)), // Step 1: overwrite
        (1_u32, Some(100_u64)), // Step 2: revert to original
    ];

    let steps = persist_chain(&root_0, key, mutations, &mut no_resolver).expect("chain");
    assert_eq!(steps.len(), 2);

    assert_eq!(steps[0].displaced, Some(100_u64));
    assert_ne!(steps[0].root_hash, root_0.structural_hash);
    assert_ne!(steps[0].created, [] as [([u8; 32], Vec<u8>); 0]);

    assert_eq!(steps[1].displaced, Some(200_u64));
    // Step 2 restored state to exact root_0
    assert_eq!(steps[1].root_hash, root_0.structural_hash);
    assert_eq!(
        steps[1].root.structural_hash, root_0.structural_hash,
        "reverting value must produce identical structural hash"
    );
}

#[test]
fn test_hamt_deep_split_mutation() {
    let key = b"deep_split_key";
    let mut root = build_hamt(key, vec![(1_u32, 100_u64)]).expect("root");

    let mut no_resolver = |_h: &StructuralHash| -> Result<Arc<HamtNode<u32, u64>>, ()> {
        panic!("unexpected lazy resolution in memory test")
    };

    // Insert 100 entries to force multi-level trie branching at depth >= 2
    for i in 2..=100_u32 {
        let (new_root, _, created) =
            persist_mutation(&root, key, i, Some(u64::from(i) * 10), &mut no_resolver)
                .expect("persist mutation");
        assert_ne!(created, [] as [([u8; 32], Vec<u8>); 0]);
        root = new_root;
    }

    assert!(
        root.nodemap.count_ones() > 0,
        "root must have child branches"
    );
}
