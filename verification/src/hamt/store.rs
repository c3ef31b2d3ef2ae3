//! Mutations that tell which nodes a store has to persist.

use std::sync::Arc;
use vstd::prelude::*;
use crate::collections::reversed;
use super::bitmap::{has_slot, map_index, slot_set};
use super::codec::{HamtCodec, HamtKey};
use super::delta::{
    both_readable, diff_load_fails, diff_node_hashes, diff_too_deep, hash_diff_upto, NodeHashDelta,
};
use super::hash::{same_hash, StructuralHash};
use super::mutate::{
    along, default_hashes, hashes_of, insert_node_with_ctx, insert_outcome, insert_outcome_wider,
    path_fails_above, remove_along, remove_outcome, HamtMutateError,
};
use super::node::{
    bucket, bucket_index, default_route, encode_node_parts, hash_views, key_path_hash, loader,
    node_at, readable, ref_hashes, resolver_total, routing_total, HamtNode, NodeRef, HAMT_MAX_DEPTH,
};
use super::persist::node_bytes;
use super::read::{clone_keeps, path_fails, path_loads, readable_child};
use super::walk::{resolve_node, HamtTraversalError};

verus! {

/// A node that a store has to persist: its hash and its bytes.
pub type CreatedNode = (StructuralHash, Vec<u8>);

/// Encodes a node.
fn encode_node<K: HamtCodec, V: HamtCodec>(node: &HamtNode<K, V>) -> (bytes: Vec<u8>)
    requires
        node.shape(),
    ensures
        bytes@ == node_bytes(*node),
{
    let mut hashes: Vec<StructuralHash> = Vec::new();
    while hashes.len() < node.children.len()
        invariant
            hashes@.len() <= node.children@.len(),
            forall|i: int|
                0 <= i < hashes@.len() ==> (#[trigger] hashes@[i])@ == ref_hashes(
                    node.children@,
                )[i],
        decreases node.children.len() - hashes.len(),
    {
        let hash: StructuralHash = node.children[hashes.len()].structural_hash();
        hashes.push(hash);
    }
    proof {
        assert(hash_views(hashes@) =~= ref_hashes(node.children@));
    }
    encode_node_parts(node.datamap, node.nodemap, node.leaves.as_slice(), hashes.as_slice())
}

/// The nodes on a path, from the given one down.
pub open spec fn spine<K: HamtCodec, V: HamtCodec>(
    node: HamtNode<K, V>,
    store: spec_fn(StructuralHash) -> HamtNode<K, V>,
    path: Seq<u8>,
    depth: nat,
) -> Seq<HamtNode<K, V>>
    decreases 52 - depth,
{
    if depth >= 52 {
        Seq::empty()
    } else if slot_set(node.nodemap, bucket(path, depth)) {
        seq![node] + spine(
            node_at(node.child(bucket(path, depth)), store),
            store,
            path,
            depth + 1,
        )
    } else {
        seq![node]
    }
}

/// The hashes and bytes of nodes.
pub open spec fn node_records<K: HamtCodec, V: HamtCodec>(nodes: Seq<HamtNode<K, V>>) -> Seq<
    (Seq<u8>, Seq<u8>),
> {
    Seq::new(nodes.len(), |i: int| (nodes[i].structural_hash@, node_bytes(nodes[i])))
}

/// The contents of a list of created nodes.
pub open spec fn created_records(created: Seq<CreatedNode>) -> Seq<(Seq<u8>, Seq<u8>)> {
    Seq::new(created.len(), |i: int| (created[i].0@, created[i].1@))
}

/// Lists the nodes on a path.
fn collect_spine<K, V, F, E>(
    node: &Arc<HamtNode<K, V>>,
    path: &StructuralHash,
    depth: usize,
    created: &mut Vec<CreatedNode>,
    resolver: &mut F,
) -> (result: Result<(), E>) where
    K: HamtCodec,
    V: HamtCodec,
    F: FnMut(&StructuralHash) -> Result<Arc<HamtNode<K, V>>, E>,

    requires
        depth <= 52,
        resolver_total::<K, V, E, F>(*old(resolver)),
        exists|store: spec_fn(StructuralHash) -> HamtNode<K, V>| #[trigger]
            readable(loader::<K, V, E, F>(*old(resolver)), store, **node, (52 - depth) as nat),
    ensures
        *final(resolver) == *old(resolver),
        match result {
            Ok(_) => forall|store: spec_fn(StructuralHash) -> HamtNode<K, V>| #[trigger]
                readable(
                    loader::<K, V, E, F>(*old(resolver)),
                    store,
                    **node,
                    (52 - depth) as nat,
                ) ==> created_records(final(created)@) == created_records(old(created)@)
                    + node_records(spine(**node, store, path@, depth as nat)),
            Err(error) => path_fails::<K, V, E, F>(
                *old(resolver),
                **node,
                path@,
                depth as nat,
                error,
            ),
        },
    decreases 52 - depth,
{
    let ghost before = created_records(created@);
    let tree: &HamtNode<K, V> = &**node;
    let ghost levels = (52 - depth) as nat;
    let ghost load = loader::<K, V, E, F>(*resolver);
    let ghost some_store = choose|store: spec_fn(StructuralHash) -> HamtNode<K, V>| #[trigger]
        readable(load, store, *tree, levels);
    if depth >= HAMT_MAX_DEPTH {
        proof {
            assert forall|store: spec_fn(StructuralHash) -> HamtNode<K, V>| #[trigger]
                readable(load, store, *tree, levels) implies created_records(created@) == before
                + node_records(spine(*tree, store, path@, depth as nat)) by {
                assert(created_records(created@) =~= before + node_records(
                    spine(*tree, store, path@, depth as nat),
                ));
            }
        }
        return Ok(());
    }
    proof {
        assert(readable(load, some_store, *tree, levels));
    }
    created.push((tree.structural_hash, encode_node(tree)));
    let ghost record = (tree.structural_hash@, node_bytes(*tree));
    proof {
        assert(created_records(created@) =~= before.push(record));
    }
    let slot: usize = bucket_index(path, depth);
    if has_slot(tree.nodemap, slot) {
        proof {
            readable_child(load, some_store, *tree, levels, slot as int);
        }
        let child_ref: &NodeRef<K, V> = &tree.children[map_index(tree.nodemap, slot)];
        let child: Arc<HamtNode<K, V>> = match resolve_node(child_ref, resolver) {
            Ok(node) => node,
            Err(error) => {
                proof {
                    let hash = child_ref->Lazy_0;
                    assert(tree.child(slot as int) == NodeRef::<K, V>::Lazy(hash));
                    assert forall|store: spec_fn(StructuralHash) -> HamtNode<K, V>| #[trigger]
                        readable(load, store, *tree, levels) implies path_loads(
                        load,
                        *tree,
                        store,
                        path@,
                        depth as nat,
                        hash,
                    ) by {}
                }
                return Err(error);
            },
        };
        proof {
            assert forall|store: spec_fn(StructuralHash) -> HamtNode<K, V>| #[trigger]
                readable(load, store, *tree, levels) implies readable(
                load,
                store,
                *child,
                (52 - (depth + 1)) as nat,
            ) && *child == node_at(tree.child(slot as int), store) by {
                readable_child(load, store, *tree, levels, slot as int);
            }
            assert(readable(load, some_store, *child, (52 - (depth + 1)) as nat));
        }
        let loaded: &HamtNode<K, V> = &*child;
        let below: Result<(), E> = collect_spine(&child, path, depth + 1, created, resolver);
        proof {
            if below is Err {
                path_fails_above::<K, V, E, F>(
                    *resolver,
                    *tree,
                    *loaded,
                    path@,
                    depth as nat,
                    below->Err_0,
                );
            }
            if below is Ok {
                assert forall|store: spec_fn(StructuralHash) -> HamtNode<K, V>| #[trigger]
                    readable(load, store, *tree, levels) implies created_records(created@)
                    == before + node_records(spine(*tree, store, path@, depth as nat)) by {
                    assert(readable(load, store, *child, (52 - (depth + 1)) as nat));
                    let rest = spine(*child, store, path@, (depth + 1) as nat);
                    assert(spine(*tree, store, path@, depth as nat) == seq![*tree] + rest);
                    assert(created_records(created@) =~= before + node_records(
                        seq![*tree] + rest,
                    ));
                }
            }
        }
        below
    } else {
        proof {
            assert forall|store: spec_fn(StructuralHash) -> HamtNode<K, V>| #[trigger]
                readable(load, store, *tree, levels) implies created_records(created@) == before
                + node_records(spine(*tree, store, path@, depth as nat)) by {
                assert(created_records(created@) =~= before + node_records(seq![*tree]));
            }
        }
        Ok(())
    }
}

/// What inserting a value, or removing a key, comes to.
pub open spec fn mutation_outcome<K: HamtCodec, V: HamtCodec, F, E>(
    hashes: spec_fn(Seq<u8>, StructuralHash) -> bool,
    resolver: F,
    node: HamtNode<K, V>,
    structural_key: Seq<u8>,
    path: Seq<u8>,
    key: Seq<u8>,
    value: Option<Seq<u8>>,
    result: Result<(Arc<HamtNode<K, V>>, Option<V>), HamtMutateError<E>>,
) -> bool where F: FnMut(&StructuralHash) -> Result<Arc<HamtNode<K, V>>, E> {
    match value {
        Some(value) => insert_outcome::<K, V, F, E>(
            hashes,
            resolver,
            node,
            structural_key,
            path,
            0,
            key,
            value,
            result,
        ),
        None => remove_outcome::<K, V, F, E>(
            hashes,
            resolver,
            node,
            structural_key,
            path,
            key,
            result,
        ),
    }
}

/// A mutation with the nodes that it created.
pub type Persisted<K, V> = (Arc<HamtNode<K, V>>, Option<V>, Vec<CreatedNode>);

/// What a persisted mutation comes to: the nodes on the path of the key are
/// listed, unless the root is the same.
pub open spec fn persist_outcome<K: HamtCodec, V: HamtCodec, F, E>(
    hashes: spec_fn(Seq<u8>, StructuralHash) -> bool,
    resolver: F,
    node: HamtNode<K, V>,
    structural_key: Seq<u8>,
    path: Seq<u8>,
    key: Seq<u8>,
    value: Option<Seq<u8>>,
    result: Result<Persisted<K, V>, HamtMutateError<E>>,
) -> bool where F: FnMut(&StructuralHash) -> Result<Arc<HamtNode<K, V>>, E> {
    match result {
        Ok((root, displaced, created)) => {
            &&& mutation_outcome::<K, V, F, E>(
                hashes,
                resolver,
                node,
                structural_key,
                path,
                key,
                value,
                Ok((root, displaced)),
            )
            &&& forall|store: spec_fn(StructuralHash) -> HamtNode<K, V>| #[trigger]
                readable(loader::<K, V, E, F>(resolver), store, node, 52) ==> created_records(
                    created@,
                ) == if root.structural_hash@ == node.structural_hash@ {
                    Seq::empty()
                } else {
                    node_records(spine(*root, store, path, 0))
                }
        },
        Err(error) => {
            ||| mutation_outcome::<K, V, F, E>(
                hashes,
                resolver,
                node,
                structural_key,
                path,
                key,
                value,
                Err(error),
            )
            ||| error matches HamtMutateError::Resolve(cause) && exists|
                root: Arc<HamtNode<K, V>>,
                displaced: Option<V>,
            | #[trigger]
                mutation_outcome::<K, V, F, E>(
                    hashes,
                    resolver,
                    node,
                    structural_key,
                    path,
                    key,
                    value,
                    Ok((root, displaced)),
                ) && path_fails::<K, V, E, F>(resolver, *root, path, 0, cause)
        },
    }
}

/// The encoding of an optional value.
pub open spec fn optional_encoding<V: HamtCodec>(value: Option<V>) -> Option<Seq<u8>> {
    match value {
        Some(value) => Some(value.encoding()),
        None => None,
    }
}

/// Applies one mutation along the path of its key.
fn persist_along<K, V, KeyHash, F, E>(
    prev_root: &Arc<HamtNode<K, V>>,
    structural_key: &[u8],
    key: K,
    value: Option<V>,
    path: &StructuralHash,
    key_hash: &mut KeyHash,
    resolver: &mut F,
) -> (result: Result<Persisted<K, V>, HamtMutateError<E>>) where
    K: HamtCodec + Clone,
    V: HamtCodec + Clone,
    KeyHash: FnMut(&K) -> StructuralHash,
    F: FnMut(&StructuralHash) -> Result<Arc<HamtNode<K, V>>, E>,

    requires
        resolver_total::<K, V, E, F>(*old(resolver)),
        routing_total::<K, KeyHash>(*old(key_hash)),
        exists|store: spec_fn(StructuralHash) -> HamtNode<K, V>| #[trigger]
            readable(loader::<K, V, E, F>(*old(resolver)), store, **prev_root, 52),
        key.encodable(),
        value matches Some(value) ==> value.encodable(),
        clone_keeps::<K>(),
        clone_keeps::<V>(),
    ensures
        *final(key_hash) == *old(key_hash),
        *final(resolver) == *old(resolver),
        persist_outcome::<K, V, F, E>(
            hashes_of::<K, KeyHash>(*old(key_hash)),
            *old(resolver),
            **prev_root,
            structural_key@,
            path@,
            key.encoding(),
            optional_encoding(value),
            result,
        ),
{
    let tree: &HamtNode<K, V> = &**prev_root;
    let ghost load = loader::<K, V, E, F>(*resolver);
    let ghost some_store = choose|store: spec_fn(StructuralHash) -> HamtNode<K, V>| #[trigger]
        readable(load, store, *tree, 52);
    proof {
        assert(readable(load, some_store, *tree, (52 - 0usize) as nat));
    }
    let mutated: Result<(Arc<HamtNode<K, V>>, Option<V>), HamtMutateError<E>> = match value {
        Some(value) => {
            insert_node_with_ctx(
                prev_root,
                structural_key,
                key,
                value,
                *path,
                0,
                key_hash,
                resolver,
            )
        },
        None => remove_along(prev_root, structural_key, &key, path, key_hash, resolver),
    };
    let (root, displaced) = match mutated {
        Ok(pair) => pair,
        Err(error) => {
            return Err(error);
        },
    };
    let changed: &HamtNode<K, V> = &*root;
    proof {
        assert forall|store: spec_fn(StructuralHash) -> HamtNode<K, V>| #[trigger]
            readable(load, store, *tree, 52) implies readable(
            load,
            store,
            *changed,
            (52 - 0usize) as nat,
        ) by {
            assert(readable(load, store, *tree, (52 - 0usize) as nat));
            assert((52 - 0nat) as nat == 52nat);
        }
        assert(readable(load, some_store, *changed, (52 - 0usize) as nat));
    }
    let mut created: Vec<CreatedNode> = Vec::new();
    if !same_hash(&changed.structural_hash, &tree.structural_hash) {
        match collect_spine(&root, path, 0, &mut created, resolver) {
            Ok(_) => {},
            Err(error) => {
                proof {
                    assert(mutation_outcome::<K, V, F, E>(
                        hashes_of::<K, KeyHash>(*old(key_hash)),
                        *old(resolver),
                        *tree,
                        structural_key@,
                        path@,
                        key.encoding(),
                        optional_encoding(value),
                        Ok((root, displaced)),
                    ));
                }
                return Err(HamtMutateError::Resolve(error));
            },
        }
        proof {
            assert forall|store: spec_fn(StructuralHash) -> HamtNode<K, V>| #[trigger]
                readable(load, store, *tree, 52) implies created_records(created@)
                == node_records(spine(*changed, store, path@, 0)) by {
                assert(readable(load, store, *changed, (52 - 0usize) as nat));
                assert(created_records(Seq::<CreatedNode>::empty()) + node_records(
                    spine(*changed, store, path@, 0),
                ) =~= node_records(spine(*changed, store, path@, 0)));
            }
        }
    } else {
        proof {
            assert(created_records(created@) =~= Seq::empty());
        }
    }
    Ok((root, displaced, created))
}

/// Applies one mutation to a trie that routes keys by a caller-provided hash:
/// inserts the value or, where there is none, removes the key. Returns the new
/// root, the value that was displaced, and the nodes that a store has to persist
/// before it publishes the root.
///
/// # Errors
/// As `insert_with_key_hash` and `remove_with_key_hash`.
pub fn persist_mutation_with_key_hash<K, V, KeyHash, F, E>(
    prev_root: &Arc<HamtNode<K, V>>,
    structural_key: &[u8],
    key: K,
    value: Option<V>,
    mut key_hash: KeyHash,
    resolver: &mut F,
) -> (result: Result<Persisted<K, V>, HamtMutateError<E>>) where
    K: HamtCodec + Clone,
    V: HamtCodec + Clone,
    KeyHash: FnMut(&K) -> StructuralHash,
    F: FnMut(&StructuralHash) -> Result<Arc<HamtNode<K, V>>, E>,

    requires
        resolver_total::<K, V, E, F>(*old(resolver)),
        routing_total::<K, KeyHash>(key_hash),
        exists|store: spec_fn(StructuralHash) -> HamtNode<K, V>| #[trigger]
            readable(loader::<K, V, E, F>(*old(resolver)), store, **prev_root, 52),
        key.encodable(),
        value matches Some(value) ==> value.encodable(),
        clone_keeps::<K>(),
        clone_keeps::<V>(),
    ensures
        *final(resolver) == *old(resolver),
        exists|path: StructuralHash|
            {
                &&& #[trigger] call_ensures(key_hash, (&key,), path)
                &&& persist_outcome::<K, V, F, E>(
                    hashes_of::<K, KeyHash>(key_hash),
                    *old(resolver),
                    **prev_root,
                    structural_key@,
                    path@,
                    key.encoding(),
                    optional_encoding(value),
                    result,
                )
            },
{
    let path: StructuralHash = key_hash(&key);
    persist_along(prev_root, structural_key, key, value, &path, &mut key_hash, resolver)
}

/// Applies one mutation to a trie built with `build_hamt`. See
/// [`persist_mutation_with_key_hash`].
///
/// # Errors
/// As `insert` and `remove`.
pub fn persist_mutation<K, V, F, E>(
    prev_root: &Arc<HamtNode<K, V>>,
    structural_key: &[u8],
    key: K,
    value: Option<V>,
    resolver: &mut F,
) -> (result: Result<Persisted<K, V>, HamtMutateError<E>>) where
    K: HamtKey + Clone,
    V: HamtCodec + Clone,
    F: FnMut(&StructuralHash) -> Result<Arc<HamtNode<K, V>>, E>,

    requires
        resolver_total::<K, V, E, F>(*old(resolver)),
        exists|store: spec_fn(StructuralHash) -> HamtNode<K, V>| #[trigger]
            readable(loader::<K, V, E, F>(*old(resolver)), store, **prev_root, 52),
        key.encodable(),
        value matches Some(value) ==> value.encodable(),
        clone_keeps::<K>(),
        clone_keeps::<V>(),
    ensures
        *final(resolver) == *old(resolver),
        persist_outcome::<K, V, F, E>(
            default_hashes::<K>(structural_key@),
            *old(resolver),
            **prev_root,
            structural_key@,
            default_route::<K>(structural_key@)(key.encoding()),
            key.encoding(),
            optional_encoding(value),
            result,
        ),
{
    let key_hash = |key: &K| -> (hash: StructuralHash)
        requires
            key.encodable(),
        ensures
            hash@ == default_route::<K>(structural_key@)(key.encoding()),
        { key_path_hash(structural_key, key) };
    let ghost hashes = hashes_of::<K, _>(key_hash);
    let ghost wider = default_hashes::<K>(structural_key@);
    proof {
        assert forall|k: Seq<u8>, h: StructuralHash| #[trigger] hashes(k, h) implies wider(
            k,
            h,
        ) by {}
    }
    let result: Result<Persisted<K, V>, HamtMutateError<E>> = persist_mutation_with_key_hash(
        prev_root,
        structural_key,
        key,
        value,
        key_hash,
        resolver,
    );
    proof {
        assert(persist_outcome::<K, V, F, E>(
            wider,
            *old(resolver),
            **prev_root,
            structural_key@,
            default_route::<K>(structural_key@)(key.encoding()),
            key.encoding(),
            optional_encoding(value),
            result,
        )) by {
            persist_outcome_wider::<K, V, F, E>(
                hashes,
                wider,
                *old(resolver),
                **prev_root,
                structural_key@,
                default_route::<K>(structural_key@)(key.encoding()),
                key.encoding(),
                optional_encoding(value),
                result,
            );
        }
    }
    result
}

/// An outcome under some hashes holds under more of them.
proof fn persist_outcome_wider<K: HamtCodec, V: HamtCodec, F, E>(
    hashes: spec_fn(Seq<u8>, StructuralHash) -> bool,
    wider: spec_fn(Seq<u8>, StructuralHash) -> bool,
    resolver: F,
    node: HamtNode<K, V>,
    structural_key: Seq<u8>,
    path: Seq<u8>,
    key: Seq<u8>,
    value: Option<Seq<u8>>,
    result: Result<Persisted<K, V>, HamtMutateError<E>>,
) where F: FnMut(&StructuralHash) -> Result<Arc<HamtNode<K, V>>, E>
    requires
        forall|k: Seq<u8>, h: StructuralHash| #[trigger] hashes(k, h) ==> wider(k, h),
        persist_outcome::<K, V, F, E>(
            hashes,
            resolver,
            node,
            structural_key,
            path,
            key,
            value,
            result,
        ),
    ensures
        persist_outcome::<K, V, F, E>(
            wider,
            resolver,
            node,
            structural_key,
            path,
            key,
            value,
            result,
        ),
{
    match result {
        Ok((root, displaced, created)) => {
            mutation_outcome_wider::<K, V, F, E>(
                hashes,
                wider,
                resolver,
                node,
                structural_key,
                path,
                key,
                value,
                Ok((root, displaced)),
            );
        },
        Err(error) => {
            if mutation_outcome::<K, V, F, E>(
                hashes,
                resolver,
                node,
                structural_key,
                path,
                key,
                value,
                Err(error),
            ) {
                mutation_outcome_wider::<K, V, F, E>(
                    hashes,
                    wider,
                    resolver,
                    node,
                    structural_key,
                    path,
                    key,
                    value,
                    Err(error),
                );
            } else {
                let (root, displaced) = choose|root: Arc<HamtNode<K, V>>, displaced: Option<V>|
                    #[trigger]
                    mutation_outcome::<K, V, F, E>(
                        hashes,
                        resolver,
                        node,
                        structural_key,
                        path,
                        key,
                        value,
                        Ok((root, displaced)),
                    ) && path_fails::<K, V, E, F>(resolver, *root, path, 0, error->Resolve_0);
                mutation_outcome_wider::<K, V, F, E>(
                    hashes,
                    wider,
                    resolver,
                    node,
                    structural_key,
                    path,
                    key,
                    value,
                    Ok((root, displaced)),
                );
            }
        },
    }
}

/// What a mutation comes to under some hashes it comes to under more of them.
proof fn mutation_outcome_wider<K: HamtCodec, V: HamtCodec, F, E>(
    hashes: spec_fn(Seq<u8>, StructuralHash) -> bool,
    wider: spec_fn(Seq<u8>, StructuralHash) -> bool,
    resolver: F,
    node: HamtNode<K, V>,
    structural_key: Seq<u8>,
    path: Seq<u8>,
    key: Seq<u8>,
    value: Option<Seq<u8>>,
    result: Result<(Arc<HamtNode<K, V>>, Option<V>), HamtMutateError<E>>,
) where F: FnMut(&StructuralHash) -> Result<Arc<HamtNode<K, V>>, E>
    requires
        forall|k: Seq<u8>, h: StructuralHash| #[trigger] hashes(k, h) ==> wider(k, h),
        mutation_outcome::<K, V, F, E>(
            hashes,
            resolver,
            node,
            structural_key,
            path,
            key,
            value,
            result,
        ),
    ensures
        mutation_outcome::<K, V, F, E>(
            wider,
            resolver,
            node,
            structural_key,
            path,
            key,
            value,
            result,
        ),
{
    match value {
        Some(value) => {
            insert_outcome_wider::<K, V, F, E>(
                hashes,
                wider,
                resolver,
                node,
                structural_key,
                path,
                0,
                key,
                value,
                result,
            );
        },
        None => {
            assert forall|route: spec_fn(Seq<u8>) -> Seq<u8>| #[trigger]
                along(wider, route) implies along(hashes, route) by {
                assert forall|k: Seq<u8>, h: StructuralHash| #[trigger] hashes(k, h) implies h@
                    == route(k) by {
                    assert(wider(k, h));
                }
            }
        },
    }
}

/// One step of a chain of mutations.
#[derive(Debug, Clone)]
pub struct ChainStep<K, V> {
    pub root: Arc<HamtNode<K, V>>,
    pub root_hash: StructuralHash,
    pub displaced: Option<V>,
    pub created: Vec<CreatedNode>,
}

/// The root that a step of a chain starts from.
pub open spec fn root_before<K, V>(
    prev_root: HamtNode<K, V>,
    steps: Seq<ChainStep<K, V>>,
    i: int,
) -> HamtNode<K, V> {
    if i == 0 {
        prev_root
    } else {
        *steps[i - 1].root
    }
}

/// What a mutation of a chain came to.
pub open spec fn step_outcome<K: HamtCodec, V: HamtCodec, KeyHash, F, E>(
    key_hash: KeyHash,
    resolver: F,
    node: HamtNode<K, V>,
    structural_key: Seq<u8>,
    mutation: (K, Option<V>),
    result: Result<Persisted<K, V>, HamtMutateError<E>>,
) -> bool where
    KeyHash: FnMut(&K) -> StructuralHash,
    F: FnMut(&StructuralHash) -> Result<Arc<HamtNode<K, V>>, E>,
 {
    exists|path: StructuralHash|
        {
            &&& #[trigger] call_ensures(key_hash, (&mutation.0,), path)
            &&& persist_outcome::<K, V, F, E>(
                hashes_of::<K, KeyHash>(key_hash),
                resolver,
                node,
                structural_key,
                path@,
                mutation.0.encoding(),
                optional_encoding(mutation.1),
                result,
            )
        }
}

/// A step of a chain is a persisted mutation of the root before it.
pub open spec fn chain_step<K: HamtCodec, V: HamtCodec, KeyHash, F, E>(
    key_hash: KeyHash,
    resolver: F,
    prev_root: HamtNode<K, V>,
    structural_key: Seq<u8>,
    mutations: Seq<(K, Option<V>)>,
    steps: Seq<ChainStep<K, V>>,
    i: int,
) -> bool where
    KeyHash: FnMut(&K) -> StructuralHash,
    F: FnMut(&StructuralHash) -> Result<Arc<HamtNode<K, V>>, E>,
 {
    &&& steps[i].root_hash@ == steps[i].root.structural_hash@
    &&& step_outcome::<K, V, KeyHash, F, E>(
        key_hash,
        resolver,
        root_before(prev_root, steps, i),
        structural_key,
        mutations[i],
        Ok((steps[i].root, steps[i].displaced, steps[i].created)),
    )
}

/// Applies mutations one after the other, and tells for each which nodes a store
/// has to persist.
///
/// # Errors
/// Returns the error of the first mutation that fails.
pub fn persist_chain_with_key_hash<K, V, KeyHash, F, E>(
    prev_root: &Arc<HamtNode<K, V>>,
    structural_key: &[u8],
    mutations: Vec<(K, Option<V>)>,
    mut key_hash: KeyHash,
    resolver: &mut F,
) -> (result: Result<Vec<ChainStep<K, V>>, HamtMutateError<E>>) where
    K: HamtCodec + Clone,
    V: HamtCodec + Clone,
    KeyHash: FnMut(&K) -> StructuralHash,
    F: FnMut(&StructuralHash) -> Result<Arc<HamtNode<K, V>>, E>,

    requires
        resolver_total::<K, V, E, F>(*old(resolver)),
        routing_total::<K, KeyHash>(key_hash),
        exists|store: spec_fn(StructuralHash) -> HamtNode<K, V>| #[trigger]
            readable(loader::<K, V, E, F>(*old(resolver)), store, **prev_root, 52),
        forall|i: int|
            0 <= i < mutations@.len() ==> (#[trigger] mutations@[i]).0.encodable() && (
            mutations@[i].1 matches Some(value) ==> value.encodable()),
        clone_keeps::<K>(),
        clone_keeps::<V>(),
    ensures
        *final(resolver) == *old(resolver),
        match result {
            Ok(steps) => {
                &&& steps@.len() == mutations@.len()
                &&& forall|i: int|
                    0 <= i < steps@.len() ==> #[trigger] chain_step::<K, V, KeyHash, F, E>(
                        key_hash,
                        *old(resolver),
                        **prev_root,
                        structural_key@,
                        mutations@,
                        steps@,
                        i,
                    )
            },
            Err(error) => exists|steps: Seq<ChainStep<K, V>>|
                {
                    &&& steps.len() < mutations@.len()
                    &&& forall|i: int|
                        0 <= i < steps.len() ==> #[trigger] chain_step::<K, V, KeyHash, F, E>(
                            key_hash,
                            *old(resolver),
                            **prev_root,
                            structural_key@,
                            mutations@,
                            steps,
                            i,
                        )
                    &&& #[trigger] step_outcome::<K, V, KeyHash, F, E>(
                        key_hash,
                        *old(resolver),
                        root_before(**prev_root, steps, steps.len() as int),
                        structural_key@,
                        mutations@[steps.len() as int],
                        Err(error),
                    )
                },
        },
{
    let ghost all = mutations@;
    let ghost load = loader::<K, V, E, F>(*resolver);
    let ghost some_store = choose|store: spec_fn(StructuralHash) -> HamtNode<K, V>| #[trigger]
        readable(load, store, **prev_root, 52);
    let ghost routing = key_hash;
    let mut rest: Vec<(K, Option<V>)> = reversed(mutations);
    let mut steps: Vec<ChainStep<K, V>> = Vec::new();
    let start: &HamtNode<K, V> = &**prev_root;
    let mut current: Arc<HamtNode<K, V>> = prev_root.clone();
    #[verifier::loop_isolation(false)]
    while rest.len() > 0
        invariant
            *start == **prev_root,
            *resolver == *old(resolver),
            load == loader::<K, V, E, F>(*resolver),
            resolver_total::<K, V, E, F>(*resolver),
            key_hash == routing,
            routing_total::<K, KeyHash>(key_hash),
            clone_keeps::<K>(),
            clone_keeps::<V>(),
            forall|i: int|
                0 <= i < all.len() ==> (#[trigger] all[i]).0.encodable() && (
                all[i].1 matches Some(value) ==> value.encodable()),
            steps@.len() + rest@.len() == all.len(),
            forall|j: int| 0 <= j < rest@.len() ==> rest@[j] == all[all.len() - 1 - j],
            *current == root_before(**prev_root, steps@, steps@.len() as int),
            readable(load, some_store, *current, 52),
            forall|i: int|
                0 <= i < steps@.len() ==> #[trigger] chain_step::<K, V, KeyHash, F, E>(
                    routing,
                    *old(resolver),
                    **prev_root,
                    structural_key@,
                    all,
                    steps@,
                    i,
                ),
        decreases rest.len(),
    {
        let ghost count = steps@.len() as int;
        let ghost mutation = all[count];
        let ghost before = root_before(*start, steps@, count);
        let ghost earlier = steps@;
        proof {
            assert(rest@[rest@.len() - 1] == mutation);
        }
        let (key, value) = match rest.pop() {
            Some(pair) => pair,
            None => {
                return Ok(steps);
            },
        };
        let path: StructuralHash = key_hash(&key);
        let outcome: Result<Persisted<K, V>, HamtMutateError<E>> = persist_along(
            &current,
            structural_key,
            key,
            value,
            &path,
            &mut key_hash,
            resolver,
        );
        proof {
            assert(call_ensures(routing, (&mutation.0,), path));
            assert(step_outcome::<K, V, KeyHash, F, E>(
                routing,
                *old(resolver),
                before,
                structural_key@,
                mutation,
                outcome,
            ));
        }
        let (root, displaced, created) = match outcome {
            Ok(persisted) => persisted,
            Err(error) => {
                return Err(error);
            },
        };
        let root_hash: StructuralHash = root.structural_hash;
        proof {
            assert(readable(load, some_store, before, (52 - 0nat) as nat));
            assert((52 - 0nat) as nat == 52nat);
            assert(readable(load, some_store, *root, 52));
        }
        current = root.clone();
        steps.push(ChainStep { root, root_hash, displaced, created });
        proof {
            assert forall|i: int| 0 <= i < steps@.len() implies #[trigger] chain_step::<
                K,
                V,
                KeyHash,
                F,
                E,
            >(
                routing,
                *old(resolver),
                **prev_root,
                structural_key@,
                all,
                steps@,
                i,
            ) by {
                if i < earlier.len() {
                    assert(chain_step::<K, V, KeyHash, F, E>(
                        routing,
                        *old(resolver),
                        **prev_root,
                        structural_key@,
                        all,
                        earlier,
                        i,
                    ));
                    assert(steps@[i] == earlier[i]);
                    assert(root_before(**prev_root, steps@, i) == root_before(
                        **prev_root,
                        earlier,
                        i,
                    ));
                } else {
                    assert(root_before(**prev_root, steps@, i) == before);
                }
            }
        }
    }
    Ok(steps)
}

/// A step of a chain under the default routing.
pub open spec fn default_step<K: HamtKey, V: HamtCodec, F, E>(
    resolver: F,
    node: HamtNode<K, V>,
    structural_key: Seq<u8>,
    mutation: (K, Option<V>),
    result: Result<Persisted<K, V>, HamtMutateError<E>>,
) -> bool where F: FnMut(&StructuralHash) -> Result<Arc<HamtNode<K, V>>, E> {
    persist_outcome::<K, V, F, E>(
        default_hashes::<K>(structural_key),
        resolver,
        node,
        structural_key,
        default_route::<K>(structural_key)(mutation.0.encoding()),
        mutation.0.encoding(),
        optional_encoding(mutation.1),
        result,
    )
}

/// A step of a chain is a persisted mutation of the root before it.
pub open spec fn default_chain_step<K: HamtKey, V: HamtCodec, F, E>(
    resolver: F,
    prev_root: HamtNode<K, V>,
    structural_key: Seq<u8>,
    mutations: Seq<(K, Option<V>)>,
    steps: Seq<ChainStep<K, V>>,
    i: int,
) -> bool where F: FnMut(&StructuralHash) -> Result<Arc<HamtNode<K, V>>, E> {
    &&& steps[i].root_hash@ == steps[i].root.structural_hash@
    &&& default_step::<K, V, F, E>(
        resolver,
        root_before(prev_root, steps, i),
        structural_key,
        mutations[i],
        Ok((steps[i].root, steps[i].displaced, steps[i].created)),
    )
}

/// A step under a routing function that follows the default route.
proof fn step_by_default<K: HamtKey, V: HamtCodec, KeyHash, F, E>(
    key_hash: KeyHash,
    resolver: F,
    node: HamtNode<K, V>,
    structural_key: Seq<u8>,
    mutation: (K, Option<V>),
    result: Result<Persisted<K, V>, HamtMutateError<E>>,
) where
    KeyHash: FnMut(&K) -> StructuralHash,
    F: FnMut(&StructuralHash) -> Result<Arc<HamtNode<K, V>>, E>,

    requires
        forall|key: K, hash: StructuralHash| #[trigger]
            call_ensures(key_hash, (&key,), hash) ==> hash@ == default_route::<K>(structural_key)(
                key.encoding(),
            ),
        step_outcome::<K, V, KeyHash, F, E>(
            key_hash,
            resolver,
            node,
            structural_key,
            mutation,
            result,
        ),
    ensures
        default_step::<K, V, F, E>(resolver, node, structural_key, mutation, result),
{
    let hashes = hashes_of::<K, KeyHash>(key_hash);
    let wider = default_hashes::<K>(structural_key);
    assert forall|k: Seq<u8>, h: StructuralHash| #[trigger] hashes(k, h) implies wider(k, h) by {}
    let path = choose|path: StructuralHash|
        {
            &&& #[trigger] call_ensures(key_hash, (&mutation.0,), path)
            &&& persist_outcome::<K, V, F, E>(
                hashes,
                resolver,
                node,
                structural_key,
                path@,
                mutation.0.encoding(),
                optional_encoding(mutation.1),
                result,
            )
        };
    persist_outcome_wider::<K, V, F, E>(
        hashes,
        wider,
        resolver,
        node,
        structural_key,
        path@,
        mutation.0.encoding(),
        optional_encoding(mutation.1),
        result,
    );
}

/// Applies mutations one after the other to a trie built with `build_hamt`. See
/// [`persist_chain_with_key_hash`].
///
/// # Errors
/// Returns the error of the first mutation that fails.
pub fn persist_chain<K, V, F, E>(
    prev_root: &Arc<HamtNode<K, V>>,
    structural_key: &[u8],
    mutations: Vec<(K, Option<V>)>,
    resolver: &mut F,
) -> (result: Result<Vec<ChainStep<K, V>>, HamtMutateError<E>>) where
    K: HamtKey + Clone,
    V: HamtCodec + Clone,
    F: FnMut(&StructuralHash) -> Result<Arc<HamtNode<K, V>>, E>,

    requires
        resolver_total::<K, V, E, F>(*old(resolver)),
        exists|store: spec_fn(StructuralHash) -> HamtNode<K, V>| #[trigger]
            readable(loader::<K, V, E, F>(*old(resolver)), store, **prev_root, 52),
        forall|i: int|
            0 <= i < mutations@.len() ==> (#[trigger] mutations@[i]).0.encodable() && (
            mutations@[i].1 matches Some(value) ==> value.encodable()),
        clone_keeps::<K>(),
        clone_keeps::<V>(),
    ensures
        *final(resolver) == *old(resolver),
        match result {
            Ok(steps) => {
                &&& steps@.len() == mutations@.len()
                &&& forall|i: int|
                    0 <= i < steps@.len() ==> #[trigger] default_chain_step::<K, V, F, E>(
                        *old(resolver),
                        **prev_root,
                        structural_key@,
                        mutations@,
                        steps@,
                        i,
                    )
            },
            Err(error) => exists|steps: Seq<ChainStep<K, V>>|
                {
                    &&& steps.len() < mutations@.len()
                    &&& forall|i: int|
                        0 <= i < steps.len() ==> #[trigger] default_chain_step::<K, V, F, E>(
                            *old(resolver),
                            **prev_root,
                            structural_key@,
                            mutations@,
                            steps,
                            i,
                        )
                    &&& #[trigger] default_step::<K, V, F, E>(
                        *old(resolver),
                        root_before(**prev_root, steps, steps.len() as int),
                        structural_key@,
                        mutations@[steps.len() as int],
                        Err(error),
                    )
                },
        },
{
    let key_hash = |key: &K| -> (hash: StructuralHash)
        requires
            key.encodable(),
        ensures
            hash@ == default_route::<K>(structural_key@)(key.encoding()),
        { key_path_hash(structural_key, key) };
    let ghost all = mutations@;
    let start: &HamtNode<K, V> = &**prev_root;
    let result: Result<Vec<ChainStep<K, V>>, HamtMutateError<E>> = persist_chain_with_key_hash(
        prev_root,
        structural_key,
        mutations,
        key_hash,
        resolver,
    );
    proof {
        let before = *old(resolver);
        assert forall|steps: Seq<ChainStep<K, V>>, i: int| #[trigger]
            chain_step::<K, V, _, F, E>(
                key_hash,
                before,
                *start,
                structural_key@,
                all,
                steps,
                i,
            ) implies default_chain_step::<K, V, F, E>(
            before,
            *start,
            structural_key@,
            all,
            steps,
            i,
        ) by {
            step_by_default::<K, V, _, F, E>(
                key_hash,
                before,
                root_before(*start, steps, i),
                structural_key@,
                all[i],
                Ok((steps[i].root, steps[i].displaced, steps[i].created)),
            );
        }
        if result is Ok {
                assert forall|i: int| 0 <= i < result->Ok_0@.len() implies #[trigger] default_chain_step::<
                    K,
                    V,
                    F,
                    E,
                >(before, *start, structural_key@, all, result->Ok_0@, i) by {
                    assert(chain_step::<K, V, _, F, E>(
                        key_hash,
                        before,
                        *start,
                        structural_key@,
                        all,
                        result->Ok_0@,
                        i,
                    ));
                }
        } else {
                let steps = choose|steps: Seq<ChainStep<K, V>>|
                    {
                        &&& steps.len() < all.len()
                        &&& forall|i: int|
                            0 <= i < steps.len() ==> #[trigger] chain_step::<K, V, _, F, E>(
                                key_hash,
                                before,
                                *start,
                                structural_key@,
                                all,
                                steps,
                                i,
                            )
                        &&& #[trigger] step_outcome::<K, V, _, F, E>(
                            key_hash,
                            before,
                            root_before(*start, steps, steps.len() as int),
                            structural_key@,
                            all[steps.len() as int],
                            Err(result->Err_0),
                        )
                    };
                step_by_default::<K, V, _, F, E>(
                    key_hash,
                    before,
                    root_before(*start, steps, steps.len() as int),
                    structural_key@,
                    all[steps.len() as int],
                    Err(result->Err_0),
                );
                assert forall|i: int| 0 <= i < steps.len() implies #[trigger] default_chain_step::<
                    K,
                    V,
                    F,
                    E,
                >(before, *start, structural_key@, all, steps, i) by {
                    assert(chain_step::<K, V, _, F, E>(
                        key_hash,
                        before,
                        *start,
                        structural_key@,
                        all,
                        steps,
                        i,
                    ));
                }
        }
    }
    result
}

/// The records that the first steps of a chain created.
pub open spec fn chain_records<K, V>(steps: Seq<ChainStep<K, V>>, n: nat) -> Seq<
    (Seq<u8>, Seq<u8>),
>
    decreases n,
{
    if n == 0 {
        Seq::empty()
    } else {
        chain_records(steps, (n - 1) as nat) + created_records(steps[n - 1].created@)
    }
}

/// Some record has the hash.
pub open spec fn has_record(records: Seq<(Seq<u8>, Seq<u8>)>, hash: Seq<u8>) -> bool {
    exists|i: int| 0 <= i < records.len() && (#[trigger] records[i]).0 == hash
}

/// The first records whose hashes are listed, each hash once.
pub open spec fn records_of(
    records: Seq<(Seq<u8>, Seq<u8>)>,
    hashes: Seq<StructuralHash>,
    n: nat,
) -> Seq<(Seq<u8>, Seq<u8>)>
    decreases n,
{
    if n == 0 {
        Seq::empty()
    } else {
        let before = records_of(records, hashes, (n - 1) as nat);
        let record = records[n - 1];
        if hash_views(hashes).contains(record.0) && !has_record(before, record.0) {
            before.push(record)
        } else {
            before
        }
    }
}

/// The nodes that a chain has left behind: those that the last root has and the
/// first has not.
pub open spec fn batch_records<K: HamtCodec, V: HamtCodec>(
    prev_root: HamtNode<K, V>,
    steps: Seq<ChainStep<K, V>>,
    store: spec_fn(StructuralHash) -> HamtNode<K, V>,
) -> Seq<(Seq<u8>, Seq<u8>)> {
    let last = root_before(prev_root, steps, steps.len() as int);
    if last.structural_hash@ == prev_root.structural_hash@ {
        Seq::empty()
    } else {
        let records = chain_records(steps, steps.len());
        records_of(records, hash_diff_upto(prev_root, last, store, 52, 32).1, records.len())
    }
}

/// Keeps the records of a chain whose hashes are listed, each hash once.
fn select_created<K, V>(steps: &Vec<ChainStep<K, V>>, hashes: &Vec<StructuralHash>) -> (created:
    Vec<CreatedNode>)
    ensures
        created_records(created@) == records_of(
            chain_records(steps@, steps@.len()),
            hashes@,
            chain_records(steps@, steps@.len()).len(),
        ),
{
    let ghost records = chain_records(steps@, steps@.len());
    let mut created: Vec<CreatedNode> = Vec::new();
    let mut index: usize = 0;
    proof {
        assert(created_records(created@) =~= Seq::empty());
    }
    while index < steps.len()
        invariant
            index <= steps.len(),
            records == chain_records(steps@, steps@.len()),
            created_records(created@) == records_of(
                records,
                hashes@,
                chain_records(steps@, index as nat).len(),
            ),
        decreases steps.len() - index,
    {
        let listed: &Vec<CreatedNode> = &steps[index].created;
        let ghost start = chain_records(steps@, index as nat);
        let ghost next = chain_records(steps@, (index + 1) as nat);
        proof {
            chain_prefix(steps@, (index + 1) as nat, steps@.len());
            assert(next == start + created_records(listed@));
        }
        let mut place: usize = 0;
        while place < listed.len()
            invariant
                index < steps.len(),
                *listed == steps@[index as int].created,
                place <= listed.len(),
                records == chain_records(steps@, steps@.len()),
                next.len() <= records.len(),
                records.take(next.len() as int) == next,
                next == start + created_records(listed@),
                created_records(created@) == records_of(
                    records,
                    hashes@,
                    (start.len() + place) as nat,
                ),
            decreases listed.len() - place,
        {
            let node: &CreatedNode = &listed[place];
            let ghost before = created_records(created@);
            let ghost at = start.len() + place;
            proof {
                assert(records[at] == records.take(next.len() as int)[at]);
                assert(records[at] == (node.0@, node.1@));
            }
            if lists(hashes, &node.0) && !is_created(&created, &node.0) {
                let bytes: Vec<u8> = copy_bytes(&node.1);
                created.push((node.0, bytes));
                proof {
                    assert(created_records(created@) =~= before.push((node.0@, node.1@)));
                }
            }
            place = place + 1;
        }
        index = index + 1;
    }
    created
}

proof fn chain_prefix<K, V>(steps: Seq<ChainStep<K, V>>, n: nat, m: nat)
    requires
        n <= m,
    ensures
        chain_records(steps, n).len() <= chain_records(steps, m).len(),
        chain_records(steps, m).take(chain_records(steps, n).len() as int) == chain_records(
            steps,
            n,
        ),
    decreases m,
{
    let short = chain_records(steps, n);
    let long = chain_records(steps, m);
    if n < m {
        chain_prefix(steps, n, (m - 1) as nat);
        let middle = chain_records(steps, (m - 1) as nat);
        assert(long.take(short.len() as int) =~= middle.take(short.len() as int));
    } else {
        assert(long.take(short.len() as int) =~= short);
    }
}

fn copy_bytes(bytes: &Vec<u8>) -> (copy: Vec<u8>)
    ensures
        copy@ == bytes@,
{
    let mut copy: Vec<u8> = Vec::new();
    copy.extend_from_slice(bytes.as_slice());
    proof {
        assert(copy@ =~= bytes@);
    }
    copy
}

fn lists(hashes: &Vec<StructuralHash>, hash: &StructuralHash) -> (found: bool)
    ensures
        found == hash_views(hashes@).contains(hash@),
{
    let mut index: usize = 0;
    while index < hashes.len()
        invariant
            index <= hashes.len(),
            forall|i: int| 0 <= i < index ==> #[trigger] hash_views(hashes@)[i] != hash@,
        decreases hashes.len() - index,
    {
        if same_hash(&hashes[index], hash) {
            proof {
                assert(hash_views(hashes@)[index as int] == hash@);
            }
            return true;
        }
        index = index + 1;
    }
    false
}

fn is_created(created: &Vec<CreatedNode>, hash: &StructuralHash) -> (found: bool)
    ensures
        found == has_record(created_records(created@), hash@),
{
    let mut index: usize = 0;
    while index < created.len()
        invariant
            index <= created.len(),
            forall|i: int|
                0 <= i < index ==> (#[trigger] created_records(created@)[i]).0 != hash@,
        decreases created.len() - index,
    {
        if same_hash(&created[index].0, hash) {
            proof {
                assert(created_records(created@)[index as int].0 == hash@);
            }
            return true;
        }
        index = index + 1;
    }
    false
}

/// The values that the steps of a chain displaced.
fn take_displaced<K, V>(steps: Vec<ChainStep<K, V>>) -> (displaced: Vec<Option<V>>)
    ensures
        displaced@ == Seq::new(steps@.len(), |i: int| steps@[i].displaced),
{
    let ghost all = steps@;
    let mut rest: Vec<ChainStep<K, V>> = reversed(steps);
    let mut displaced: Vec<Option<V>> = Vec::new();
    while rest.len() > 0
        invariant
            displaced@.len() + rest@.len() == all.len(),
            forall|j: int| 0 <= j < rest@.len() ==> rest@[j] == all[all.len() - 1 - j],
            forall|i: int| 0 <= i < displaced@.len() ==> displaced@[i] == all[i].displaced,
        decreases rest.len(),
    {
        proof {
            assert(rest@[rest@.len() - 1] == all[displaced@.len() as int]);
        }
        match rest.pop() {
            Some(step) => {
                displaced.push(step.displaced);
            },
            None => {},
        }
    }
    proof {
        assert(displaced@ =~= Seq::new(all.len(), |i: int| all[i].displaced));
    }
    displaced
}

/// A batch of mutations with the nodes that it created.
pub type PersistedBatch<K, V> = (Arc<HamtNode<K, V>>, Vec<Option<V>>, Vec<CreatedNode>);

/// What a batch returns, given the steps that it takes.
pub open spec fn batch_of<K: HamtCodec, V: HamtCodec>(
    load: spec_fn(StructuralHash, HamtNode<K, V>) -> bool,
    prev_root: HamtNode<K, V>,
    steps: Seq<ChainStep<K, V>>,
    batch: PersistedBatch<K, V>,
) -> bool {
    &&& *batch.0 == root_before(prev_root, steps, steps.len() as int)
    &&& batch.1@ == Seq::new(steps.len(), |i: int| steps[i].displaced)
    &&& forall|store: spec_fn(StructuralHash) -> HamtNode<K, V>| #[trigger]
        readable(load, store, prev_root, 52) ==> created_records(batch.2@) == batch_records(
            prev_root,
            steps,
            store,
        )
}

/// Turns a chain into a batch.
fn finish_batch<K, V, F, E>(
    prev_root: &Arc<HamtNode<K, V>>,
    steps: Vec<ChainStep<K, V>>,
    resolver: &mut F,
) -> (result: Result<PersistedBatch<K, V>, HamtTraversalError<E>>) where
    K: HamtCodec,
    V: HamtCodec,
    F: FnMut(&StructuralHash) -> Result<Arc<HamtNode<K, V>>, E>,

    requires
        resolver_total::<K, V, E, F>(*old(resolver)),
        exists|store: spec_fn(StructuralHash) -> HamtNode<K, V>| #[trigger]
            readable(loader::<K, V, E, F>(*old(resolver)), store, **prev_root, 52),
        forall|store: spec_fn(StructuralHash) -> HamtNode<K, V>| #[trigger]
            readable(loader::<K, V, E, F>(*old(resolver)), store, **prev_root, 52) ==> readable(
                loader::<K, V, E, F>(*old(resolver)),
                store,
                root_before(**prev_root, steps@, steps@.len() as int),
                52,
            ),
    ensures
        *final(resolver) == *old(resolver),
        match result {
            Ok(batch) => batch_of(
                loader::<K, V, E, F>(*old(resolver)),
                **prev_root,
                steps@,
                batch,
            ),
            Err(HamtTraversalError::Resolve(error)) => forall|
                store: spec_fn(StructuralHash) -> HamtNode<K, V>,
            | #[trigger]
                readable(loader::<K, V, E, F>(*old(resolver)), store, **prev_root, 52)
                    ==> diff_load_fails::<K, V, F, E>(
                    *old(resolver),
                    **prev_root,
                    root_before(**prev_root, steps@, steps@.len() as int),
                    store,
                    52,
                    error,
                ),
            Err(HamtTraversalError::MaxDepthExceeded { depth }) => depth == 52 && forall|
                store: spec_fn(StructuralHash) -> HamtNode<K, V>,
            | #[trigger]
                readable(loader::<K, V, E, F>(*old(resolver)), store, **prev_root, 52)
                    ==> diff_too_deep(
                    loader::<K, V, E, F>(*old(resolver)),
                    store,
                    **prev_root,
                    root_before(**prev_root, steps@, steps@.len() as int),
                    52,
                ),
        },
{
    let start: &HamtNode<K, V> = &**prev_root;
    let ghost load = loader::<K, V, E, F>(*resolver);
    let ghost all = steps@;
    let root: Arc<HamtNode<K, V>> = if steps.len() == 0 {
        prev_root.clone()
    } else {
        steps[steps.len() - 1].root.clone()
    };
    let last: &HamtNode<K, V> = &*root;
    let ghost some_store = choose|store: spec_fn(StructuralHash) -> HamtNode<K, V>| #[trigger]
        readable(load, store, *start, 52);
    proof {
        assert(*last == root_before(*start, all, all.len() as int));
        assert(readable(load, some_store, *start, 52) && readable(load, some_store, *last, 52));
        assert(both_readable(load, *start, *last, 52));
    }
    let mut created: Vec<CreatedNode> = Vec::new();
    proof {
        assert(created_records(created@) =~= Seq::empty());
    }
    if !same_hash(&last.structural_hash, &start.structural_hash) {
        let delta: NodeHashDelta = match diff_node_hashes(prev_root, &root, resolver) {
            Ok(delta) => delta,
            Err(error) => {
                proof {
                    assert(readable(
                        loader::<K, V, E, F>(*old(resolver)),
                        some_store,
                        **prev_root,
                        52,
                    ));
                    assert(readable(loader::<K, V, E, F>(*old(resolver)), some_store, *root, 52));
                    assert forall|store: spec_fn(StructuralHash) -> HamtNode<K, V>| #[trigger]
                        readable(load, store, *start, 52) implies readable(
                        load,
                        store,
                        *last,
                        52,
                    ) by {}
                }
                return Err(error);
            },
        };
        created = select_created(&steps, &delta.new_node_hashes);
        proof {
            assert forall|store: spec_fn(StructuralHash) -> HamtNode<K, V>| #[trigger]
                readable(load, store, *start, 52) implies created_records(created@)
                == batch_records(*start, all, store) by {
                assert(readable(loader::<K, V, E, F>(*old(resolver)), store, **prev_root, 52));
                assert(readable(loader::<K, V, E, F>(*old(resolver)), store, *root, 52));
                assert(delta.new_node_hashes@ == hash_diff_upto(*start, *last, store, 52, 32).1);
                assert(created_records(created@) == records_of(
                    chain_records(all, all.len()),
                    hash_diff_upto(*start, *last, store, 52, 32).1,
                    chain_records(all, all.len()).len(),
                ));
            }
        }
    }
    let displaced: Vec<Option<V>> = take_displaced(steps);
    Ok((root, displaced, created))
}

/// What a batch of mutations comes to: a chain whose outcome is told at once.
pub open spec fn batch_outcome<K: HamtCodec, V: HamtCodec, F, E>(
    resolver: F,
    prev_root: HamtNode<K, V>,
    steps: Seq<ChainStep<K, V>>,
    result: Result<PersistedBatch<K, V>, HamtMutateError<E>>,
) -> bool where F: FnMut(&StructuralHash) -> Result<Arc<HamtNode<K, V>>, E> {
    let load = loader::<K, V, E, F>(resolver);
    match result {
        Ok(batch) => batch_of(load, prev_root, steps, batch),
        Err(HamtMutateError::Resolve(error)) => forall|
            store: spec_fn(StructuralHash) -> HamtNode<K, V>,
        | #[trigger]
            readable(load, store, prev_root, 52) ==> diff_load_fails::<K, V, F, E>(
                resolver,
                prev_root,
                root_before(prev_root, steps, steps.len() as int),
                store,
                52,
                error,
            ),
        Err(HamtMutateError::MaxDepthExceeded { depth }) => depth == 52 && forall|
            store: spec_fn(StructuralHash) -> HamtNode<K, V>,
        | #[trigger]
            readable(load, store, prev_root, 52) ==> diff_too_deep(
                load,
                store,
                prev_root,
                root_before(prev_root, steps, steps.len() as int),
                52,
            ),
        Err(HamtMutateError::HashCollision { .. }) => false,
    }
}

/// The roots of a chain can be read as the first one can.
proof fn chain_readable<K: HamtCodec, V: HamtCodec, KeyHash, F, E>(
    key_hash: KeyHash,
    resolver: F,
    prev_root: HamtNode<K, V>,
    structural_key: Seq<u8>,
    mutations: Seq<(K, Option<V>)>,
    steps: Seq<ChainStep<K, V>>,
    store: spec_fn(StructuralHash) -> HamtNode<K, V>,
    n: nat,
) where
    KeyHash: FnMut(&K) -> StructuralHash,
    F: FnMut(&StructuralHash) -> Result<Arc<HamtNode<K, V>>, E>,

    requires
        n <= steps.len(),
        readable(loader::<K, V, E, F>(resolver), store, prev_root, 52),
        forall|i: int|
            0 <= i < steps.len() ==> #[trigger] chain_step::<K, V, KeyHash, F, E>(
                key_hash,
                resolver,
                prev_root,
                structural_key,
                mutations,
                steps,
                i,
            ),
    ensures
        readable(
            loader::<K, V, E, F>(resolver),
            store,
            root_before(prev_root, steps, n as int),
            52,
        ),
    decreases n,
{
    if n > 0 {
        let m = (n - 1) as nat;
        chain_readable::<K, V, KeyHash, F, E>(
            key_hash,
            resolver,
            prev_root,
            structural_key,
            mutations,
            steps,
            store,
            m,
        );
        assert(chain_step::<K, V, KeyHash, F, E>(
            key_hash,
            resolver,
            prev_root,
            structural_key,
            mutations,
            steps,
            m as int,
        ));
        let before = root_before(prev_root, steps, m as int);
        assert((52 - 0nat) as nat == 52nat);
        assert(readable(loader::<K, V, E, F>(resolver), store, before, (52 - 0nat) as nat));
    }
}

/// Applies mutations as one batch. Returns the last root, the values that were
/// displaced in turn, and the nodes that the last root has and the first has not.
///
/// # Errors
/// Returns the error of the first mutation that fails, or the error of comparing
/// the first root with the last.
pub fn persist_mutations_with_key_hash<K, V, KeyHash, F, E>(
    prev_root: &Arc<HamtNode<K, V>>,
    structural_key: &[u8],
    mutations: Vec<(K, Option<V>)>,
    key_hash: KeyHash,
    resolver: &mut F,
) -> (result: Result<PersistedBatch<K, V>, HamtMutateError<E>>) where
    K: HamtCodec + Clone,
    V: HamtCodec + Clone,
    KeyHash: FnMut(&K) -> StructuralHash,
    F: FnMut(&StructuralHash) -> Result<Arc<HamtNode<K, V>>, E>,

    requires
        resolver_total::<K, V, E, F>(*old(resolver)),
        routing_total::<K, KeyHash>(key_hash),
        exists|store: spec_fn(StructuralHash) -> HamtNode<K, V>| #[trigger]
            readable(loader::<K, V, E, F>(*old(resolver)), store, **prev_root, 52),
        forall|i: int|
            0 <= i < mutations@.len() ==> (#[trigger] mutations@[i]).0.encodable() && (
            mutations@[i].1 matches Some(value) ==> value.encodable()),
        clone_keeps::<K>(),
        clone_keeps::<V>(),
    ensures
        *final(resolver) == *old(resolver),
        exists|steps: Seq<ChainStep<K, V>>|
            {
                &&& steps.len() <= mutations@.len()
                &&& forall|i: int|
                    0 <= i < steps.len() ==> #[trigger] chain_step::<K, V, KeyHash, F, E>(
                        key_hash,
                        *old(resolver),
                        **prev_root,
                        structural_key@,
                        mutations@,
                        steps,
                        i,
                    )
                &&& #[trigger] batch_result::<K, V, KeyHash, F, E>(
                    key_hash,
                    *old(resolver),
                    **prev_root,
                    structural_key@,
                    mutations@,
                    steps,
                    result,
                )
            },
{
    let start: &HamtNode<K, V> = &**prev_root;
    let ghost all = mutations@;
    let ghost load = loader::<K, V, E, F>(*resolver);
    let ghost routing = key_hash;
    let steps: Vec<ChainStep<K, V>> = match persist_chain_with_key_hash(
        prev_root,
        structural_key,
        mutations,
        key_hash,
        resolver,
    ) {
        Ok(steps) => steps,
        Err(error) => {
            let result: Result<PersistedBatch<K, V>, HamtMutateError<E>> = Err(error);
            proof {
                let steps = choose|steps: Seq<ChainStep<K, V>>|
                    {
                        &&& steps.len() < all.len()
                        &&& forall|i: int|
                            0 <= i < steps.len() ==> #[trigger] chain_step::<K, V, KeyHash, F, E>(
                                routing,
                                *old(resolver),
                                *start,
                                structural_key@,
                                all,
                                steps,
                                i,
                            )
                        &&& #[trigger] step_outcome::<K, V, KeyHash, F, E>(
                            routing,
                            *old(resolver),
                            root_before(*start, steps, steps.len() as int),
                            structural_key@,
                            all[steps.len() as int],
                            Err(result->Err_0),
                        )
                    };
                assert(batch_result::<K, V, KeyHash, F, E>(
                    routing,
                    *old(resolver),
                    *start,
                    structural_key@,
                    all,
                    steps,
                    result,
                ));
            }
            return result;
        },
    };
    let ghost taken = steps@;
    proof {
        assert forall|store: spec_fn(StructuralHash) -> HamtNode<K, V>| #[trigger]
            readable(load, store, *start, 52) implies readable(
            load,
            store,
            root_before(*start, taken, taken.len() as int),
            52,
        ) by {
            chain_readable::<K, V, KeyHash, F, E>(
                routing,
                *old(resolver),
                *start,
                structural_key@,
                all,
                taken,
                store,
                taken.len(),
            );
        }
    }
    let result: Result<PersistedBatch<K, V>, HamtMutateError<E>> = match finish_batch(
        prev_root,
        steps,
        resolver,
    ) {
        Ok(batch) => Ok(batch),
        Err(HamtTraversalError::Resolve(error)) => Err(HamtMutateError::Resolve(error)),
        Err(HamtTraversalError::MaxDepthExceeded { depth }) => {
            Err(HamtMutateError::MaxDepthExceeded { depth })
        },
    };
    proof {
        assert(batch_result::<K, V, KeyHash, F, E>(
            routing,
            *old(resolver),
            *start,
            structural_key@,
            all,
            taken,
            result,
        ));
    }
    result
}

/// What a batch returns: where every mutation succeeds, the outcome of the
/// chain; otherwise the error of the first that fails.
pub open spec fn batch_result<K: HamtCodec, V: HamtCodec, KeyHash, F, E>(
    key_hash: KeyHash,
    resolver: F,
    prev_root: HamtNode<K, V>,
    structural_key: Seq<u8>,
    mutations: Seq<(K, Option<V>)>,
    steps: Seq<ChainStep<K, V>>,
    result: Result<PersistedBatch<K, V>, HamtMutateError<E>>,
) -> bool where
    KeyHash: FnMut(&K) -> StructuralHash,
    F: FnMut(&StructuralHash) -> Result<Arc<HamtNode<K, V>>, E>,
 {
    if steps.len() == mutations.len() {
        batch_outcome::<K, V, F, E>(resolver, prev_root, steps, result)
    } else {
        result is Err && step_outcome::<K, V, KeyHash, F, E>(
            key_hash,
            resolver,
            root_before(prev_root, steps, steps.len() as int),
            structural_key,
            mutations[steps.len() as int],
            Err(result->Err_0),
        )
    }
}

/// What a batch returns under the default routing.
pub open spec fn default_batch_result<K: HamtKey, V: HamtCodec, F, E>(
    resolver: F,
    prev_root: HamtNode<K, V>,
    structural_key: Seq<u8>,
    mutations: Seq<(K, Option<V>)>,
    steps: Seq<ChainStep<K, V>>,
    result: Result<PersistedBatch<K, V>, HamtMutateError<E>>,
) -> bool where F: FnMut(&StructuralHash) -> Result<Arc<HamtNode<K, V>>, E> {
    if steps.len() == mutations.len() {
        batch_outcome::<K, V, F, E>(resolver, prev_root, steps, result)
    } else {
        result is Err && default_step::<K, V, F, E>(
            resolver,
            root_before(prev_root, steps, steps.len() as int),
            structural_key,
            mutations[steps.len() as int],
            Err(result->Err_0),
        )
    }
}

/// Applies mutations as one batch to a trie built with `build_hamt`. See
/// [`persist_mutations_with_key_hash`].
///
/// # Errors
/// Returns the error of the first mutation that fails, or the error of comparing
/// the first root with the last.
pub fn persist_mutations<K, V, F, E>(
    prev_root: &Arc<HamtNode<K, V>>,
    structural_key: &[u8],
    mutations: Vec<(K, Option<V>)>,
    resolver: &mut F,
) -> (result: Result<PersistedBatch<K, V>, HamtMutateError<E>>) where
    K: HamtKey + Clone,
    V: HamtCodec + Clone,
    F: FnMut(&StructuralHash) -> Result<Arc<HamtNode<K, V>>, E>,

    requires
        resolver_total::<K, V, E, F>(*old(resolver)),
        exists|store: spec_fn(StructuralHash) -> HamtNode<K, V>| #[trigger]
            readable(loader::<K, V, E, F>(*old(resolver)), store, **prev_root, 52),
        forall|i: int|
            0 <= i < mutations@.len() ==> (#[trigger] mutations@[i]).0.encodable() && (
            mutations@[i].1 matches Some(value) ==> value.encodable()),
        clone_keeps::<K>(),
        clone_keeps::<V>(),
    ensures
        *final(resolver) == *old(resolver),
        exists|steps: Seq<ChainStep<K, V>>|
            {
                &&& steps.len() <= mutations@.len()
                &&& forall|i: int|
                    0 <= i < steps.len() ==> #[trigger] default_chain_step::<K, V, F, E>(
                        *old(resolver),
                        **prev_root,
                        structural_key@,
                        mutations@,
                        steps,
                        i,
                    )
                &&& #[trigger] default_batch_result::<K, V, F, E>(
                    *old(resolver),
                    **prev_root,
                    structural_key@,
                    mutations@,
                    steps,
                    result,
                )
            },
{
    let key_hash = |key: &K| -> (hash: StructuralHash)
        requires
            key.encodable(),
        ensures
            hash@ == default_route::<K>(structural_key@)(key.encoding()),
        { key_path_hash(structural_key, key) };
    let ghost all = mutations@;
    let start: &HamtNode<K, V> = &**prev_root;
    let result: Result<PersistedBatch<K, V>, HamtMutateError<E>> = persist_mutations_with_key_hash(
        prev_root,
        structural_key,
        mutations,
        key_hash,
        resolver,
    );
    proof {
        let before = *old(resolver);
        let steps = choose|steps: Seq<ChainStep<K, V>>|
            {
                &&& steps.len() <= all.len()
                &&& forall|i: int|
                    0 <= i < steps.len() ==> #[trigger] chain_step::<K, V, _, F, E>(
                        key_hash,
                        before,
                        *start,
                        structural_key@,
                        all,
                        steps,
                        i,
                    )
                &&& #[trigger] batch_result::<K, V, _, F, E>(
                    key_hash,
                    before,
                    *start,
                    structural_key@,
                    all,
                    steps,
                    result,
                )
            };
        assert forall|i: int| 0 <= i < steps.len() implies #[trigger] default_chain_step::<
            K,
            V,
            F,
            E,
        >(before, *start, structural_key@, all, steps, i) by {
            assert(chain_step::<K, V, _, F, E>(
                key_hash,
                before,
                *start,
                structural_key@,
                all,
                steps,
                i,
            ));
            step_by_default::<K, V, _, F, E>(
                key_hash,
                before,
                root_before(*start, steps, i),
                structural_key@,
                all[i],
                Ok((steps[i].root, steps[i].displaced, steps[i].created)),
            );
        }
        if steps.len() != all.len() {
            step_by_default::<K, V, _, F, E>(
                key_hash,
                before,
                root_before(*start, steps, steps.len() as int),
                structural_key@,
                all[steps.len() as int],
                Err(result->Err_0),
            );
        }
        assert(default_batch_result::<K, V, F, E>(
            before,
            *start,
            structural_key@,
            all,
            steps,
            result,
        ));
    }
    result
}

} // verus!
