use rezzy::hamt::node::{bucket_index, key_path_hash, HAMT_MAX_DEPTH};
use rezzy::hamt::{
    build_hamt, build_hamt_with_key_hash, diff_hamt_nodes, diff_node_hashes, insert, isolate_delta,
    reachable_node_hashes, remove, HamtBuildError, HamtNode, HamtTraversalError, NodeRef,
    PersistedInternalNode, StructuralHash,
};
use rezzy::state::LtHash;
use std::collections::{BTreeMap, BTreeSet};
use std::sync::Arc;

type Node = Arc<HamtNode<u64, u64>>;

fn nothing_to_load(_hash: &StructuralHash) -> Result<Node, &'static str> {
    Err("nothing should be loaded")
}

/// Keys that take the same slot of the root.
fn neighbours(structural_key: &[u8], count: usize) -> Vec<u64> {
    let slot = bucket_index(&key_path_hash(structural_key, &1_u64), 0);
    (1_u64..100_000)
        .filter(|key| bucket_index(&key_path_hash(structural_key, key), 0) == slot)
        .take(count)
        .collect()
}

/// All nodes of a trie by their hash, with their children left to be loaded.
fn stored(root: &Node, nodes: &mut BTreeMap<StructuralHash, Node>) {
    let children = root
        .children
        .iter()
        .map(|child| match child {
            NodeRef::Resolved(node) => {
                stored(node, nodes);
                NodeRef::Lazy(node.structural_hash)
            }
            NodeRef::Lazy(hash) => NodeRef::Lazy(*hash),
        })
        .collect();
    nodes.insert(
        root.structural_hash,
        Arc::new(HamtNode {
            datamap: root.datamap,
            nodemap: root.nodemap,
            leaves: root.leaves.clone(),
            children,
            structural_hash: root.structural_hash,
        }),
    );
}

#[test]
fn an_entry_that_moves_below_a_child_is_in_neither_list() {
    let key = b"moved_entry_key";
    let near = neighbours(key, 3);
    let small = build_hamt(key, vec![(near[0], 10)]).unwrap();
    let large = build_hamt(key, vec![(near[0], 10), (near[1], 20)]).unwrap();
    assert_eq!(small.nodemap, 0);
    assert_eq!(large.datamap, 0);
    let mut resolver = nothing_to_load;

    let (added, removed) = diff_hamt_nodes(&small, &large, &mut resolver).unwrap();
    assert_eq!(added, vec![(near[1], 20)]);
    assert_eq!(removed, Vec::new());

    let (added, removed) = diff_hamt_nodes(&large, &small, &mut resolver).unwrap();
    assert_eq!(added, Vec::new());
    assert_eq!(removed, vec![(near[1], 20)]);

    let changed = build_hamt(key, vec![(near[0], 11), (near[2], 30)]).unwrap();
    let (mut added, removed) = isolate_delta(
        &small,
        &LtHash::default(),
        &changed,
        &LtHash([1_u16; 1024]),
        &mut resolver,
    )
    .unwrap();
    added.sort_unstable();
    let mut expected = vec![(near[0], 11), (near[2], 30)];
    expected.sort_unstable();
    assert_eq!(added, expected);
    assert_eq!(removed, vec![(near[0], 10)]);
}

#[test]
fn the_first_trie_and_what_is_added_balance_the_second_and_what_is_removed() {
    let key = b"balance_key";
    let a: Vec<(u64, u64)> = (0_u64..90).map(|i| (i, i % 7)).collect();
    let b: Vec<(u64, u64)> = (30_u64..140).map(|i| (i, i % 5)).collect();
    let root_a = build_hamt(key, a.clone()).unwrap();
    let root_b = build_hamt(key, b.clone()).unwrap();
    let (added, removed) = diff_hamt_nodes(&root_a, &root_b, &mut nothing_to_load).unwrap();

    let mut left = a;
    left.extend(added);
    left.sort_unstable();
    let mut right = b;
    right.extend(removed);
    right.sort_unstable();
    assert_eq!(left, right);
}

#[test]
fn a_persisted_node_decodes_under_its_own_hash_alone() {
    let key = b"verified_key";
    let entries: Vec<(u64, u64)> = (0_u64..80).map(|i| (i, i * 3)).collect();
    let root = build_hamt(key, entries).unwrap();
    let bytes = PersistedInternalNode::from(root.as_ref()).encode_v1();

    let loaded: HamtNode<u64, u64> =
        PersistedInternalNode::decode_v1_verified(&bytes, key, root.structural_hash).unwrap();
    assert_eq!(loaded.datamap, root.datamap);
    assert_eq!(loaded.nodemap, root.nodemap);
    assert_eq!(loaded.leaves, root.leaves);
    assert_eq!(loaded.structural_hash, root.structural_hash);
    assert_eq!(loaded.children.len(), root.children.len());
    for (left, right) in loaded.children.iter().zip(&root.children) {
        assert!(matches!(left, NodeRef::Lazy(_)));
        assert_eq!(left.structural_hash(), right.structural_hash());
    }

    for position in 0..32 {
        let mut other = root.structural_hash;
        other[position] ^= 1;
        assert_eq!(
            PersistedInternalNode::<u64, u64>::decode_v1_verified(&bytes, key, other).err(),
            Some("persisted node contents do not match expected structural hash")
        );
    }
}

#[test]
fn a_structural_hash_tells_keys_from_values_and_not_loaded_from_unloaded() {
    let key = b"separation_key";
    let one = [("ab".to_string(), "c".to_string())];
    let two = [("a".to_string(), "bc".to_string())];
    assert_ne!(
        HamtNode::compute_structural_hash(key, 1, 0, &one, &[]),
        HamtNode::compute_structural_hash(key, 1, 0, &two, &[])
    );

    let child = build_hamt(key, vec![(1_u64, 2_u64)]).unwrap();
    assert_eq!(
        HamtNode::compute_structural_hash(key, 0, 1, &[], &[NodeRef::Resolved(child.clone())]),
        HamtNode::<u64, u64>::compute_structural_hash(
            key,
            0,
            1,
            &[],
            &[NodeRef::Lazy(child.structural_hash)]
        )
    );
}

#[test]
fn building_fails_exactly_on_equal_routing_hashes() {
    let key = b"routing_key";
    for byte in 0..32 {
        for bit in 0..8 {
            let root = build_hamt_with_key_hash(key, vec![(0_u8, 0_u8), (1, 1)], |entry| {
                let mut hash = [0x5a_u8; 32];
                if *entry == 1 {
                    hash[byte] ^= 1 << bit;
                }
                hash
            });
            assert!(root.is_ok());
        }
    }
    let clash = build_hamt_with_key_hash(key, vec![(0_u8, 0_u8), (1, 1), (2, 2)], |entry| {
        [*entry / 2; 32]
    });
    assert_eq!(
        clash.err(),
        Some(HamtBuildError::HashCollision {
            depth: HAMT_MAX_DEPTH - 1,
            bucket_size: 2
        })
    );
}

#[test]
fn signed_integers_are_keys() {
    let key = b"signed_key";
    let entries: Vec<(i64, u64)> = (-40_i64..40).map(|i| (i, i.unsigned_abs())).collect();
    let root = build_hamt(key, entries).unwrap();
    assert_eq!(root.get(key, &-7), Some(&7));
    assert_eq!(root.get(key, &7), Some(&7));
    assert_eq!(root.get(key, &-41), None);

    // The two's complement bytes of a key route it.
    assert_eq!(key_path_hash(key, &-1_i8), key_path_hash(key, &0xff_u8));
    assert_eq!(key_path_hash(key, &-2_i16), key_path_hash(key, &0xfffe_u16));
    assert_eq!(key_path_hash(key, &-1_i32), key_path_hash(key, &u32::MAX));
    assert_eq!(key_path_hash(key, &-1_i64), key_path_hash(key, &u64::MAX));
    assert_eq!(key_path_hash(key, &-1_i128), key_path_hash(key, &u128::MAX));
    assert_eq!(key_path_hash(key, &5_isize), key_path_hash(key, &5_usize));
}

#[test]
fn searching_an_unloaded_trie_finds_what_the_whole_one_holds() {
    let key = b"unloaded_key";
    let entries: Vec<(u64, u64)> = (0_u64..300).map(|i| (i, i + 1000)).collect();
    let whole = build_hamt(key, entries).unwrap();
    let mut nodes = BTreeMap::new();
    stored(&whole, &mut nodes);
    let partial = nodes[&whole.structural_hash].clone();

    let mut resolver =
        |hash: &StructuralHash| -> Result<Node, &'static str> { nodes.get(hash).cloned().ok_or("gone") };
    for asked in 0_u64..320 {
        assert_eq!(
            partial.search(key, &asked, &mut resolver).unwrap(),
            whole.get(key, &asked).copied()
        );
    }

    // Only a node on the key's path can make the search fail.
    let mut failing = nothing_to_load;
    for asked in 0_u64..300 {
        let slot = bucket_index(&key_path_hash(key, &asked), 0);
        let found = partial.search(key, &asked, &mut failing);
        if partial.datamap & (1 << slot) != 0 {
            assert_eq!(found, Ok(Some(asked + 1000)));
        } else {
            assert_eq!(found, Err("nothing should be loaded"));
        }
    }
}

#[test]
fn node_hashes_after_one_change_are_what_left_and_what_came() {
    let key = b"delta_of_hashes";
    let entries: Vec<(u64, u64)> = (0_u64..200).map(|i| (i, i)).collect();
    let before = build_hamt(key, entries).unwrap();
    let mut resolver = nothing_to_load;
    let (with_key, _) = insert(&before, key, 777, 1, &mut resolver).unwrap();
    let (without_key, _) = remove(&before, key, &100, &mut resolver).unwrap();

    for after in [with_key, without_key, before.clone()] {
        let delta = diff_node_hashes(&before, &after, &mut resolver).unwrap();
        let was: BTreeSet<StructuralHash> =
            reachable_node_hashes(&before, &mut resolver).unwrap().into_iter().collect();
        let is: BTreeSet<StructuralHash> =
            reachable_node_hashes(&after, &mut resolver).unwrap().into_iter().collect();
        let gone: BTreeSet<StructuralHash> = delta.superseded_node_hashes.into_iter().collect();
        let fresh: BTreeSet<StructuralHash> = delta.new_node_hashes.into_iter().collect();
        assert_eq!(gone, was.difference(&is).copied().collect());
        assert_eq!(fresh, is.difference(&was).copied().collect());
    }
}

#[test]
fn walks_stop_at_the_first_thing_that_ends_them() {
    let key = b"stops_key";
    let far = [7_u8; 32];
    let mixed = HamtNode {
        datamap: 0b01,
        nodemap: 0b10,
        leaves: vec![(1_u64, 10_u64)],
        children: vec![NodeRef::Lazy(far)],
        structural_hash: HamtNode::compute_structural_hash(
            key,
            0b01,
            0b10,
            &[(1_u64, 10_u64)],
            &[NodeRef::Lazy(far)],
        ),
    };
    let mut resolver = |hash: &StructuralHash| -> Result<Node, &'static str> {
        if *hash == far {
            Err("no such node")
        } else {
            Err("another node")
        }
    };

    let found = mixed.find_entry(&mut resolver, &mut |k: &u64, _v: &u64| Ok(*k == 1));
    assert_eq!(found, Ok(Some((1, 10))));
    let found = mixed.find_entry(&mut resolver, &mut |_k: &u64, _v: &u64| Ok(false));
    assert_eq!(found, Err(HamtTraversalError::Resolve("no such node")));
    let any = mixed.any_entry(&mut resolver, &mut |_k: &u64, _v: &u64| Err("not this one"));
    assert_eq!(any, Err(HamtTraversalError::Resolve("not this one")));

    let mut seen = Vec::new();
    let visited = mixed.visit_entries(&mut resolver, &mut |k: &u64, v: &u64| {
        seen.push((*k, *v));
        Ok(())
    });
    assert_eq!(visited, Err("no such node"));
    assert_eq!(seen, vec![(1, 10)]);
    let visited = mixed.visit_entries(&mut resolver, &mut |_k: &u64, _v: &u64| Err("refused"));
    assert_eq!(visited, Err("refused"));
}
