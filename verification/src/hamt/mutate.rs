//! Inserting and removing entries by copying the path to them.

use std::sync::Arc;
use vstd::prelude::*;
use super::bitmap::{
    disjoint_slots, disjoint_updates, has_slot, map_index, rank, rank_bound, rank_injective,
    rank_monotone, rank_zero, select_facts, select_slot, slot_set, slot_updates,
};
use super::codec::{HamtCodec, HamtKey};
use super::construct::{
    build_node, colliding, collision, collision_exact, in_slot, listed, routed, same_path,
    BuildEntry, HamtBuildError,
};
use super::edit::{
    leaf_to_child, with_child, with_leaf, with_value, without_child, without_leaf, Parts,
};
use super::hash::StructuralHash;
use super::node::{
    bucket, bucket_index, bucket_range, canonical, canonical_from_slots, canonical_slot,
    default_route, dense, holds, key_path_hash, loader, lookup, lookup_finds, node_at, node_in_slot,
    readable, rebuild_node, resolver_total, routing_total, slot_canonical, slot_holds, slot_in_node,
    HamtNode, NodeRef, HAMT_MAX_DEPTH,
};
use super::read::{clone_keeps, leaf_in_range, path_fails, path_loads, readable_child};
use super::slots::{inserted_at, readable_change, same_but, same_slot, slot_change, slot_entries};
use super::walk::{child_loads, resolve_node};

verus! {

/// Errors that can occur while incrementally mutating a trie.
#[derive(Clone, Debug, PartialEq, Eq)]
pub enum HamtMutateError<E> {
    /// Too many entries collided into the same slot after exhausting the
    /// available hash depth.
    HashCollision { depth: usize, bucket_size: usize },
    /// The resolver failed to load a lazy child that the mutation needed to
    /// descend into.
    Resolve(E),
    /// The path to the key is deeper than any legitimately built trie.
    MaxDepthExceeded { depth: usize },
}

/// Where a route leads.
pub enum PathEnd<K, V> {
    /// To an empty slot.
    Empty,
    /// To a leaf of the node at a depth.
    Leaf(nat, K, V),
    /// To a node below the last level.
    Deep(HamtNode<K, V>),
}

/// Where a route leads from a node at a depth.
pub open spec fn path_end<K: HamtCodec, V: HamtCodec>(
    node: HamtNode<K, V>,
    store: spec_fn(StructuralHash) -> HamtNode<K, V>,
    path: Seq<u8>,
    depth: nat,
) -> PathEnd<K, V>
    decreases 52 - depth,
{
    if depth >= 52 {
        PathEnd::Deep(node)
    } else {
        let slot = bucket(path, depth);
        if slot_set(node.datamap, slot) {
            PathEnd::Leaf(depth, node.leaf(slot).0, node.leaf(slot).1)
        } else if slot_set(node.nodemap, slot) {
            path_end(node_at(node.child(slot), store), store, path, depth + 1)
        } else {
            PathEnd::Empty
        }
    }
}

/// The hashes that a routing function may return for a key with an encoding.
pub open spec fn hashes_of<K: HamtCodec, KeyHash>(key_hash: KeyHash) -> spec_fn(
    Seq<u8>,
    StructuralHash,
) -> bool where KeyHash: FnMut(&K) -> StructuralHash {
    |key: Seq<u8>, hash: StructuralHash|
        exists|copy: K| copy.encoding() == key && #[trigger] call_ensures(key_hash, (&copy,), hash)
}

/// The default routing hash of a key with an encoding.
pub open spec fn default_hashes<K: HamtKey>(structural_key: Seq<u8>) -> spec_fn(
    Seq<u8>,
    StructuralHash,
) -> bool {
    |key: Seq<u8>, hash: StructuralHash| hash@ == default_route::<K>(structural_key)(key)
}

/// Every hash of a key is the one that the route gives.
pub open spec fn along(
    hashes: spec_fn(Seq<u8>, StructuralHash) -> bool,
    route: spec_fn(Seq<u8>) -> Seq<u8>,
) -> bool {
    forall|key: Seq<u8>, hash: StructuralHash| #[trigger]
        hashes(key, hash) ==> hash@ == route(key)
}

/// The canonical trie at a depth, with lazy nodes as the resolver gives them.
pub open spec fn sound<K: HamtCodec, V: HamtCodec>(
    load: spec_fn(StructuralHash, HamtNode<K, V>) -> bool,
    node: HamtNode<K, V>,
    store: spec_fn(StructuralHash) -> HamtNode<K, V>,
    route: spec_fn(Seq<u8>) -> Seq<u8>,
    structural_key: Seq<u8>,
    depth: nat,
) -> bool {
    &&& readable(load, store, node, (52 - depth) as nat)
    &&& canonical(node, store, route, structural_key, depth)
}

/// The new trie is canonical and holds what the old one held, with the value
/// for the key in place of any other value for it.
pub open spec fn inserted<K: HamtCodec, V: HamtCodec>(
    node: HamtNode<K, V>,
    changed: HamtNode<K, V>,
    store: spec_fn(StructuralHash) -> HamtNode<K, V>,
    route: spec_fn(Seq<u8>) -> Seq<u8>,
    structural_key: Seq<u8>,
    depth: nat,
    key: Seq<u8>,
    value: Seq<u8>,
) -> bool {
    &&& canonical(changed, store, route, structural_key, depth)
    &&& dense(node) ==> dense(changed)
    &&& forall|k: Seq<u8>, v: Seq<u8>| #[trigger]
        holds(changed, store, k, v, depth) <==> if k == key {
            v == value
        } else {
            holds(node, store, k, v, depth)
        }
}

/// The displaced value, by its encoding.
pub open spec fn displaced<K, V: HamtCodec, E>(
    result: Result<(Arc<HamtNode<K, V>>, Option<V>), HamtMutateError<E>>,
    value: Option<Seq<u8>>,
) -> bool {
    match result {
        Ok((_, previous)) => match previous {
            Some(previous) => value == Some(previous.encoding()),
            None => value is None,
        },
        Err(_) => false,
    }
}

/// How an insertion ends that could load every node on its way: by where the
/// route of the key leads.
pub open spec fn insert_ends<K: HamtCodec, V: HamtCodec, E>(
    hashes: spec_fn(Seq<u8>, StructuralHash) -> bool,
    end: PathEnd<K, V>,
    path: Seq<u8>,
    key: Seq<u8>,
    result: Result<(Arc<HamtNode<K, V>>, Option<V>), HamtMutateError<E>>,
) -> bool {
    match end {
        PathEnd::Empty => displaced(result, None),
        PathEnd::Leaf(at, k, v) => if k.encoding() == key {
            displaced(result, Some(v.encoding()))
        } else {
            exists|hash: StructuralHash| #[trigger]
                hashes(k.encoding(), hash) && if same_path(
                    hash@,
                    path,
                    at + 1,
                ) {
                    result matches Err(HamtMutateError::HashCollision { depth, bucket_size })
                        && depth == (if at == 51 {
                        52int
                    } else {
                        51int
                    }) && bucket_size == 2
                } else {
                    displaced(result, None)
                }
        },
        PathEnd::Deep(last) => result matches Err(
            HamtMutateError::HashCollision { depth, bucket_size },
        ) && depth == 52 && bucket_size == last.leaves@.len() + 1,
    }
}

/// What an insertion does. `Ok` comes with the changed trie and the value that
/// was held before.
pub open spec fn insert_outcome<K: HamtCodec, V: HamtCodec, F, E>(
    hashes: spec_fn(Seq<u8>, StructuralHash) -> bool,
    resolver: F,
    node: HamtNode<K, V>,
    structural_key: Seq<u8>,
    path: Seq<u8>,
    depth: nat,
    key: Seq<u8>,
    value: Seq<u8>,
    result: Result<(Arc<HamtNode<K, V>>, Option<V>), HamtMutateError<E>>,
) -> bool where
    F: FnMut(&StructuralHash) -> Result<Arc<HamtNode<K, V>>, E>,
 {
    let load = loader::<K, V, E, F>(resolver);
    match result {
        Err(HamtMutateError::Resolve(error)) => path_fails::<K, V, E, F>(
            resolver,
            node,
            path,
            depth,
            error,
        ),
        _ => {
            &&& forall|store: spec_fn(StructuralHash) -> HamtNode<K, V>| #[trigger]
                readable(load, store, node, (52 - depth) as nat) ==> insert_ends::<K, V, E>(
                    hashes,
                    path_end(node, store, path, depth),
                    path,
                    key,
                    result,
                )
            &&& result matches Ok((changed, _)) ==> {
                &&& changed.structural_hash@ == changed.digest(structural_key)
                &&& forall|store: spec_fn(StructuralHash) -> HamtNode<K, V>| #[trigger]
                    readable(load, store, node, (52 - depth) as nat) ==> readable(
                        load,
                        store,
                        *changed,
                        (52 - depth) as nat,
                    )
                &&& forall|
                    store: spec_fn(StructuralHash) -> HamtNode<K, V>,
                    route: spec_fn(Seq<u8>) -> Seq<u8>,
                | #[trigger]
                    sound(load, node, store, route, structural_key, depth) && along(hashes, route)
                        && route(key) == path ==> inserted(
                        node,
                        *changed,
                        store,
                        route,
                        structural_key,
                        depth,
                        key,
                        value,
                    )
            }
        },
    }
}

/// Results with the same displaced value.
proof fn same_displaced<K, V: HamtCodec, E>(
    a: Result<(Arc<HamtNode<K, V>>, Option<V>), HamtMutateError<E>>,
    b: Result<(Arc<HamtNode<K, V>>, Option<V>), HamtMutateError<E>>,
)
    requires
        a is Ok,
        b is Ok,
        a->Ok_0.1 == b->Ok_0.1,
    ensures
        forall|value: Option<Seq<u8>>| #[trigger] displaced(a, value) == displaced(b, value),
{
}

proof fn same_ends<K: HamtCodec, V: HamtCodec, E>(
    hashes: spec_fn(Seq<u8>, StructuralHash) -> bool,
    end: PathEnd<K, V>,
    path: Seq<u8>,
    key: Seq<u8>,
    a: Result<(Arc<HamtNode<K, V>>, Option<V>), HamtMutateError<E>>,
    b: Result<(Arc<HamtNode<K, V>>, Option<V>), HamtMutateError<E>>,
)
    requires
        a is Ok,
        b is Ok,
        a->Ok_0.1 == b->Ok_0.1,
        insert_ends::<K, V, E>(hashes, end, path, key, a),
    ensures
        insert_ends::<K, V, E>(hashes, end, path, key, b),
{
    same_displaced(a, b);
    match end {
        PathEnd::Leaf(at, k, v) => {
            if k.encoding() != key {
                let hash = choose|hash: StructuralHash| #[trigger]
                    hashes(k.encoding(), hash) && if same_path(
                        hash@,
                        path,
                        at + 1,
                    ) {
                        a matches Err(HamtMutateError::HashCollision { depth, bucket_size })
                            && depth == (if at == 51 {
                            52int
                        } else {
                            51int
                        }) && bucket_size == 2
                    } else {
                        displaced(a, None)
                    };
                assert(hashes(k.encoding(), hash));
                assert(displaced(a, None) == displaced(b, None));
            }
        },
        _ => {},
    }
}

/// A resolver that fails on the route below a child fails on the route.
pub(crate) proof fn path_fails_above<K: HamtCodec, V: HamtCodec, E, F>(
    f: F,
    node: HamtNode<K, V>,
    child: HamtNode<K, V>,
    path: Seq<u8>,
    depth: nat,
    error: E,
) where F: FnMut(&StructuralHash) -> Result<Arc<HamtNode<K, V>>, E>
    requires
        depth < 52,
        slot_set(node.nodemap, bucket(path, depth)),
        forall|store: spec_fn(StructuralHash) -> HamtNode<K, V>| #[trigger]
            readable(loader::<K, V, E, F>(f), store, node, (52 - depth) as nat) ==> {
                &&& child == node_at(node.child(bucket(path, depth)), store)
                &&& child_loads(loader::<K, V, E, F>(f), store, node.child(bucket(path, depth)))
                &&& readable(
                    loader::<K, V, E, F>(f),
                    store,
                    child,
                    (52 - (depth + 1)) as nat,
                )
            },
        path_fails::<K, V, E, F>(f, child, path, depth + 1, error),
    ensures
        path_fails::<K, V, E, F>(f, node, path, depth, error),
{
    let hash = choose|hash: StructuralHash|
        {
            &&& #[trigger] call_ensures(f, (&hash,), Err::<Arc<HamtNode<K, V>>, E>(error))
            &&& forall|store: spec_fn(StructuralHash) -> HamtNode<K, V>|
                #[trigger] readable(
                    loader::<K, V, E, F>(f),
                    store,
                    child,
                    (52 - (depth + 1)) as nat,
                ) ==> path_loads(loader::<K, V, E, F>(f), child, store, path, depth + 1, hash)
        };
    assert forall|store: spec_fn(StructuralHash) -> HamtNode<K, V>| #[trigger]
        readable(loader::<K, V, E, F>(f), store, node, (52 - depth) as nat) implies path_loads(
        loader::<K, V, E, F>(f),
        node,
        store,
        path,
        depth,
        hash,
    ) by {
        assert(readable(loader::<K, V, E, F>(f), store, child, (52 - (depth + 1)) as nat));
    }
}

/// A changed slot that holds the key with the value, and otherwise what it
/// held before, makes an insertion.
proof fn insert_in_slot<K: HamtCodec, V: HamtCodec>(
    a: HamtNode<K, V>,
    b: HamtNode<K, V>,
    store: spec_fn(StructuralHash) -> HamtNode<K, V>,
    route: spec_fn(Seq<u8>) -> Seq<u8>,
    structural_key: Seq<u8>,
    depth: nat,
    slot: int,
    key: Seq<u8>,
    value: Seq<u8>,
)
    requires
        0 <= slot < 32,
        canonical(a, store, route, structural_key, depth),
        b.shape(),
        depth == 51 ==> b.nodemap == 0,
        b.structural_hash@ == b.digest(structural_key),
        same_but(a, b, slot),
        slot_canonical(b, store, route, structural_key, depth, slot),
        bucket(route(key), depth) == slot,
        dense(a) ==> dense(b),
        forall|k: Seq<u8>, v: Seq<u8>| #[trigger]
            slot_holds(b, store, k, v, depth, slot) <==> if k == key {
                v == value
            } else {
                slot_holds(a, store, k, v, depth, slot)
            },
    ensures
        inserted(a, b, store, route, structural_key, depth, key, value),
{
    slot_change(a, b, store, route, structural_key, depth, slot);
    slot_entries(a, b, store, route, structural_key, depth, slot);
    assert forall|k: Seq<u8>, v: Seq<u8>| #[trigger]
        holds(b, store, k, v, depth) <==> if k == key {
            v == value
        } else {
            holds(a, store, k, v, depth)
        } by {
        assert(slot_holds(b, store, k, v, depth, slot) <==> if k == key {
            v == value
        } else {
            slot_holds(a, store, k, v, depth, slot)
        });
        assert(slot_holds(a, store, k, v, depth, slot) <==> holds(a, store, k, v, depth) && bucket(
            route(k),
            depth,
        ) == slot);
    }
}

/// Splitting two entries fails exactly where their routes agree, with the
/// depth and size that say so.
proof fn split_collision<K, V>(entries: Seq<BuildEntry<K, V>>, depth: nat)
    requires
        entries.len() == 2,
        depth < 52,
    ensures
        collision(entries, depth, 0) == if same_path(
            entries[0].path_hash@,
            entries[1].path_hash@,
            depth,
        ) {
            Some((51nat, 2nat))
        } else {
            None
        },
{
    collision_exact(entries, depth, 0);
    collision_size(entries, depth, 0);
    bucket_range(entries[0].path_hash@, depth);
    if same_path(entries[0].path_hash@, entries[1].path_hash@, depth) {
        assert(colliding(entries, depth, 0, 0, 1));
    }
    if collision(entries, depth, 0) is Some {
        let (i, j) = choose|i: int, j: int| colliding(entries, depth, 0, i, j);
        assert(i == 0 && j == 1);
    }
}

proof fn collision_size<K, V>(entries: Seq<BuildEntry<K, V>>, depth: nat, slot: nat)
    requires
        depth < 52,
    ensures
        collision(entries, depth, slot) matches Some((d, n)) ==> d == 51 && 2 <= n
            <= entries.len(),
    decreases 52 - depth, 32 - slot,
{
    if slot < 32 {
        let here = in_slot(entries, depth, slot as int);
        entries.lemma_filter_len(|e: BuildEntry<K, V>| bucket(e.path_hash@, depth) == slot as int);
        collision_size(entries, depth, slot + 1);
        if depth + 1 < 52 {
            collision_size(here, depth + 1, 0);
        }
    }
}

/// Splits a leaf into a child that holds the leaf and the new entry.
fn insert_into_leaf_slot<K, V, KeyHash, E>(
    node: &Arc<HamtNode<K, V>>,
    structural_key: &[u8],
    key: K,
    value: V,
    path_hash: StructuralHash,
    slot: usize,
    depth: usize,
    key_hash: &mut KeyHash,
) -> (result: Result<(Arc<HamtNode<K, V>>, Option<V>), HamtMutateError<E>>) where
    K: HamtCodec + Clone,
    V: HamtCodec + Clone,
    KeyHash: FnMut(&K) -> StructuralHash,

    requires
        depth < 52,
        node.shape(),
        slot == bucket(path_hash@, depth as nat),
        slot < 32,
        slot_set(node.datamap, slot as int),
        node.leaf(slot as int).0.encoding() != key.encoding(),
        routing_total::<K, KeyHash>(*old(key_hash)),
        key.encodable(),
        value.encodable(),
        clone_keeps::<K>(),
        clone_keeps::<V>(),
    ensures
        *final(key_hash) == *old(key_hash),
        result !is Err || !(result->Err_0 is Resolve),
        insert_ends::<K, V, E>(
            hashes_of::<K, KeyHash>(*old(key_hash)),
            PathEnd::Leaf(depth as nat, node.leaf(slot as int).0, node.leaf(slot as int).1),
            path_hash@,
            key.encoding(),
            result,
        ),
        result matches Ok((changed, _)) ==> {
            &&& changed.shape()
            &&& changed.structural_hash@ == changed.digest(structural_key@)
            &&& forall|
                load: spec_fn(StructuralHash, HamtNode<K, V>) -> bool,
                store: spec_fn(StructuralHash) -> HamtNode<K, V>,
            | #[trigger]
                readable(load, store, **node, (52 - depth) as nat) ==> readable(
                    load,
                    store,
                    *changed,
                    (52 - depth) as nat,
                )
            &&& forall|
                store: spec_fn(StructuralHash) -> HamtNode<K, V>,
                route: spec_fn(Seq<u8>) -> Seq<u8>,
            | #[trigger]
                canonical(**node, store, route, structural_key@, depth as nat) && along(
                    hashes_of::<K, KeyHash>(*old(key_hash)),
                    route,
                ) && route(key.encoding()) == path_hash@ ==> inserted(
                    **node,
                    *changed,
                    store,
                    route,
                    structural_key@,
                    depth as nat,
                    key.encoding(),
                    value.encoding(),
                )
        },
{
    let index: usize = map_index(node.datamap, slot);
    let tree: &HamtNode<K, V> = &**node;
    proof {
        leaf_in_range(*tree, slot as int);
    }
    let existing: &(K, V) = &node.leaves[index];
    let existing_key: K = existing.0.clone();
    let existing_value: V = existing.1.clone();
    proof {
        assert(cloned(existing.0, existing_key) && cloned(existing.1, existing_value));
    }
    let existing_hash: StructuralHash = key_hash(&existing_key);
    let ghost first = BuildEntry {
        key: existing_key,
        value: existing_value,
        path_hash: existing_hash,
    };
    let ghost second = BuildEntry { key, value, path_hash };
    let mut entries: Vec<BuildEntry<K, V>> = Vec::new();
    entries.push(
        BuildEntry { key: existing_key, value: existing_value, path_hash: existing_hash },
    );
    entries.push(BuildEntry { key, value, path_hash });
    let ghost pair = entries@;
    proof {
        assert(pair[0] == first && pair[1] == second);
        assert(hashes_of::<K, KeyHash>(*key_hash)(
            node.leaf(slot as int).0.encoding(),
            existing_hash,
        ));
        if depth + 1 < 52 {
            split_collision(pair, (depth + 1) as nat);
        }
    }
    let child: Arc<HamtNode<K, V>> = match build_node(structural_key, entries, depth + 1) {
        Ok(child) => child,
        Err(error) => {
            match error {
                HamtBuildError::HashCollision { depth: at, bucket_size } => {
                    return Err(HamtMutateError::HashCollision { depth: at, bucket_size });
                },
            }
        },
    };
    let changed: Arc<HamtNode<K, V>> = leaf_to_child(tree, structural_key, slot, child);
    proof {
        let place = rank(node.nodemap, slot as int) as int;
        assert forall|
            load: spec_fn(StructuralHash, HamtNode<K, V>) -> bool,
            store: spec_fn(StructuralHash) -> HamtNode<K, V>,
        | #[trigger] readable(load, store, **node, (52 - depth) as nat) implies readable(
            load,
            store,
            *changed,
            (52 - depth) as nat,
        ) by {
            assert(readable(load, store, *child, (52 - (depth + 1)) as nat));
            assert forall|i: int| 0 <= i < changed.children@.len() implies {
                ||| exists|j: int|
                    0 <= j < node.children@.len() && #[trigger] node.children@[j]
                        == changed.children@[i]
                ||| #[trigger] changed.children@[i] matches NodeRef::Resolved(child) && readable(
                    load,
                    store,
                    *child,
                    (51 - depth) as nat,
                )
            } by {
                if i < place {
                    assert(node.children@[i] == changed.children@[i]);
                } else if i > place {
                    assert(node.children@[i - 1] == changed.children@[i]);
                }
            }
            readable_change(load, store, **node, *changed, (52 - depth) as nat);
        }
        assert forall|
            store: spec_fn(StructuralHash) -> HamtNode<K, V>,
            route: spec_fn(Seq<u8>) -> Seq<u8>,
        | #[trigger]
            canonical(**node, store, route, structural_key@, depth as nat) && along(
                    hashes_of::<K, KeyHash>(*old(key_hash)),
                    route,
                ) && route(key.encoding()) == path_hash@ implies inserted(
            **node,
            *changed,
            store,
            route,
            structural_key@,
            depth as nat,
            key.encoding(),
            value.encoding(),
        ) by {
            canonical_slot(**node, store, route, structural_key@, depth as nat, slot as int);
            assert(routed(pair, route));
            assert(canonical(*child, store, route, structural_key@, (depth + 1) as nat));
            assert forall|k: Seq<u8>, v: Seq<u8>| #[trigger]
                holds(*child, store, k, v, (depth + 1) as nat) <==> ((k == first.key.encoding()
                    && v == first.value.encoding()) || (k == second.key.encoding() && v
                    == second.value.encoding())) by {
                assert(holds(*child, store, k, v, (depth + 1) as nat) <==> listed(pair, k, v));
                assert(pair[0].key.encoding() == first.key.encoding());
                assert(pair[1].key.encoding() == second.key.encoding());
            }
            assert forall|k: Seq<u8>, v: Seq<u8>| #[trigger]
                slot_holds(*changed, store, k, v, depth as nat, slot as int) <==> if k
                    == key.encoding() {
                    v == value.encoding()
                } else {
                    slot_holds(**node, store, k, v, depth as nat, slot as int)
                } by {
                assert(holds(*child, store, k, v, (depth + 1) as nat) <==> ((k
                    == first.key.encoding() && v == first.value.encoding()) || (k
                    == second.key.encoding() && v == second.value.encoding())));
            }
            insert_in_slot(
                **node,
                *changed,
                store,
                route,
                structural_key@,
                depth as nat,
                slot as int,
                key.encoding(),
                value.encoding(),
            );
        }
    }
    Ok((changed, None))
}

/// Inserts or replaces an entry in the node at a depth.
pub fn insert_node_with_ctx<K, V, KeyHash, F, E>(
    node: &Arc<HamtNode<K, V>>,
    structural_key: &[u8],
    key: K,
    value: V,
    path_hash: StructuralHash,
    depth: usize,
    key_hash: &mut KeyHash,
    resolver: &mut F,
) -> (result: Result<(Arc<HamtNode<K, V>>, Option<V>), HamtMutateError<E>>) where
    K: HamtCodec + Clone,
    V: HamtCodec + Clone,
    KeyHash: FnMut(&K) -> StructuralHash,
    F: FnMut(&StructuralHash) -> Result<Arc<HamtNode<K, V>>, E>,

    requires
        depth <= 52,
        resolver_total::<K, V, E, F>(*old(resolver)),
        routing_total::<K, KeyHash>(*old(key_hash)),
        exists|store: spec_fn(StructuralHash) -> HamtNode<K, V>| #[trigger]
            readable(loader::<K, V, E, F>(*old(resolver)), store, **node, (52 - depth) as nat),
        key.encodable(),
        value.encodable(),
        clone_keeps::<K>(),
        clone_keeps::<V>(),
    ensures
        *final(key_hash) == *old(key_hash),
        *final(resolver) == *old(resolver),
        insert_outcome::<K, V, F, E>(
            hashes_of::<K, KeyHash>(*old(key_hash)),
            *old(resolver),
            **node,
            structural_key@,
            path_hash@,
            depth as nat,
            key.encoding(),
            value.encoding(),
            result,
        ),
    decreases 52 - depth, 1int,
{
    let tree: &HamtNode<K, V> = &**node;
    let ghost load = loader::<K, V, E, F>(*resolver);
    let ghost levels = (52 - depth) as nat;
    proof {
        assert(tree.shape());
        rank_bound(tree.datamap, 32);
    }
    if depth >= HAMT_MAX_DEPTH {
        return Err(
            HamtMutateError::HashCollision { depth, bucket_size: tree.leaves.len() + 1 },
        );
    }
    let slot: usize = bucket_index(&path_hash, depth);
    if has_slot(tree.datamap, slot) {
        proof {
            leaf_in_range(*tree, slot as int);
        }
        let index: usize = map_index(tree.datamap, slot);
        if tree.leaves[index].0.same_encoding(&key) {
            let (changed, previous) = with_value(tree, structural_key, slot, value);
            proof {
                assert forall|store: spec_fn(StructuralHash) -> HamtNode<K, V>| #[trigger]
                    readable(load, store, *tree, levels) implies readable(
                    load,
                    store,
                    *changed,
                    levels,
                ) by {
                    assert forall|i: int| 0 <= i < changed.children@.len() implies exists|j: int|
                        0 <= j < tree.children@.len() && #[trigger] tree.children@[j]
                            == #[trigger] changed.children@[i] by {
                        assert(tree.children@[i] == changed.children@[i]);
                    }
                    readable_change(load, store, *tree, *changed, levels);
                }
                assert forall|
                    store: spec_fn(StructuralHash) -> HamtNode<K, V>,
                    route: spec_fn(Seq<u8>) -> Seq<u8>,
                | #[trigger]
                    sound(load, *tree, store, route, structural_key@, depth as nat) && route(
                        key.encoding(),
                    ) == path_hash@ implies inserted(
                    *tree,
                    *changed,
                    store,
                    route,
                    structural_key@,
                    depth as nat,
                    key.encoding(),
                    value.encoding(),
                ) by {
                    disjoint_slots(tree.datamap, tree.nodemap, slot as int);
                    canonical_slot(
                        *tree,
                        store,
                        route,
                        structural_key@,
                        depth as nat,
                        slot as int,
                    );
                    insert_in_slot(
                        *tree,
                        *changed,
                        store,
                        route,
                        structural_key@,
                        depth as nat,
                        slot as int,
                        key.encoding(),
                        value.encoding(),
                    );
                }
            }
            return Ok((changed, Some(previous)));
        }
        return insert_into_leaf_slot(
            node,
            structural_key,
            key,
            value,
            path_hash,
            slot,
            depth,
            key_hash,
        );
    }
    if has_slot(tree.nodemap, slot) {
        return insert_into_child_slot(
            node,
            structural_key,
            key,
            value,
            path_hash,
            slot,
            depth,
            key_hash,
            resolver,
        );
    }
    let changed: Arc<HamtNode<K, V>> = with_leaf(tree, structural_key, slot, key, value);
    proof {
        assert forall|store: spec_fn(StructuralHash) -> HamtNode<K, V>| #[trigger]
            readable(load, store, *tree, levels) implies readable(
            load,
            store,
            *changed,
            levels,
        ) by {
            assert forall|i: int| 0 <= i < changed.children@.len() implies exists|j: int|
                0 <= j < tree.children@.len() && #[trigger] tree.children@[j]
                    == #[trigger] changed.children@[i] by {
                assert(tree.children@[i] == changed.children@[i]);
            }
            readable_change(load, store, *tree, *changed, levels);
        }
        assert forall|
            store: spec_fn(StructuralHash) -> HamtNode<K, V>,
            route: spec_fn(Seq<u8>) -> Seq<u8>,
        | #[trigger]
            sound(load, *tree, store, route, structural_key@, depth as nat) && route(
                key.encoding(),
            ) == path_hash@ implies inserted(
            *tree,
            *changed,
            store,
            route,
            structural_key@,
            depth as nat,
            key.encoding(),
            value.encoding(),
        ) by {
            disjoint_slots(changed.datamap, changed.nodemap, slot as int);
            insert_in_slot(
                *tree,
                *changed,
                store,
                route,
                structural_key@,
                depth as nat,
                slot as int,
                key.encoding(),
                value.encoding(),
            );
        }
    }
    Ok((changed, None))
}

/// Inserts an entry below the child of a slot.
fn insert_into_child_slot<K, V, KeyHash, F, E>(
    node: &Arc<HamtNode<K, V>>,
    structural_key: &[u8],
    key: K,
    value: V,
    path_hash: StructuralHash,
    slot: usize,
    depth: usize,
    key_hash: &mut KeyHash,
    resolver: &mut F,
) -> (result: Result<(Arc<HamtNode<K, V>>, Option<V>), HamtMutateError<E>>) where
    K: HamtCodec + Clone,
    V: HamtCodec + Clone,
    KeyHash: FnMut(&K) -> StructuralHash,
    F: FnMut(&StructuralHash) -> Result<Arc<HamtNode<K, V>>, E>,

    requires
        depth < 52,
        slot == bucket(path_hash@, depth as nat),
        slot < 32,
        !slot_set(node.datamap, slot as int),
        slot_set(node.nodemap, slot as int),
        resolver_total::<K, V, E, F>(*old(resolver)),
        routing_total::<K, KeyHash>(*old(key_hash)),
        exists|store: spec_fn(StructuralHash) -> HamtNode<K, V>| #[trigger]
            readable(loader::<K, V, E, F>(*old(resolver)), store, **node, (52 - depth) as nat),
        key.encodable(),
        value.encodable(),
        clone_keeps::<K>(),
        clone_keeps::<V>(),
    ensures
        *final(key_hash) == *old(key_hash),
        *final(resolver) == *old(resolver),
        insert_outcome::<K, V, F, E>(
            hashes_of::<K, KeyHash>(*old(key_hash)),
            *old(resolver),
            **node,
            structural_key@,
            path_hash@,
            depth as nat,
            key.encoding(),
            value.encoding(),
            result,
        ),
    decreases 52 - depth, 0int,
{
    let tree: &HamtNode<K, V> = &**node;
    let ghost load = loader::<K, V, E, F>(*resolver);
    let ghost levels = (52 - depth) as nat;
    let ghost some_store = choose|store: spec_fn(StructuralHash) -> HamtNode<K, V>| #[trigger]
        readable(load, store, *tree, levels);
    proof {
        assert(tree.shape());
        readable_child(load, some_store, *tree, levels, slot as int);
    }
    let index: usize = map_index(tree.nodemap, slot);
    let child: Arc<HamtNode<K, V>> = match resolve_node(&tree.children[index], resolver) {
        Ok(child) => child,
        Err(error) => {
            proof {
                let hash = tree.child(slot as int)->Lazy_0;
                assert forall|store: spec_fn(StructuralHash) -> HamtNode<K, V>| #[trigger]
                    readable(load, store, *tree, levels) implies path_loads(
                    load,
                    *tree,
                    store,
                    path_hash@,
                    depth as nat,
                    hash,
                ) by {}
            }
            return Err(HamtMutateError::Resolve(error));
        },
    };
    proof {
        assert forall|store: spec_fn(StructuralHash) -> HamtNode<K, V>| #[trigger]
            readable(load, store, *tree, levels) implies readable(
            load,
            store,
            *child,
            (52 - (depth + 1)) as nat,
        ) && *child == node_at(tree.child(slot as int), store) by {
            readable_child(load, store, *tree, levels, slot as int);
        }
        assert(readable(load, some_store, *child, (52 - (depth + 1)) as nat));
    }
    let below: Result<(Arc<HamtNode<K, V>>, Option<V>), HamtMutateError<E>> = insert_node_with_ctx(
        &child,
        structural_key,
        key,
        value,
        path_hash,
        depth + 1,
        key_hash,
        resolver,
    );
    match below {
        Ok((new_child, previous)) => {
            let changed: Arc<HamtNode<K, V>> = with_child(tree, structural_key, slot, new_child);
            proof {
                let place = rank(tree.nodemap, slot as int) as int;
                assert forall|store: spec_fn(StructuralHash) -> HamtNode<K, V>| #[trigger]
                    readable(load, store, *tree, levels) implies readable(
                    load,
                    store,
                    *changed,
                    levels,
                ) by {
                    assert(readable(load, store, *child, (52 - (depth + 1)) as nat));
                    assert(readable(load, store, *new_child, (52 - (depth + 1)) as nat));
                    assert forall|i: int| 0 <= i < changed.children@.len() implies {
                        ||| exists|j: int|
                            0 <= j < tree.children@.len() && #[trigger] tree.children@[j]
                                == changed.children@[i]
                        ||| #[trigger] changed.children@[i] matches NodeRef::Resolved(c)
                            && readable(load, store, *c, (levels - 1) as nat)
                    } by {
                        if i != place {
                            assert(tree.children@[i] == changed.children@[i]);
                        }
                    }
                    readable_change(load, store, *tree, *changed, levels);
                }
                assert forall|
                    store: spec_fn(StructuralHash) -> HamtNode<K, V>,
                    route: spec_fn(Seq<u8>) -> Seq<u8>,
                | #[trigger]
                    sound(load, *tree, store, route, structural_key@, depth as nat) && along(
                    hashes_of::<K, KeyHash>(*old(key_hash)),
                    route,
                ) && route(key.encoding())
                        == path_hash@ implies inserted(
                    *tree,
                    *changed,
                    store,
                    route,
                    structural_key@,
                    depth as nat,
                    key.encoding(),
                    value.encoding(),
                ) by {
                    canonical_slot(
                        *tree,
                        store,
                        route,
                        structural_key@,
                        depth as nat,
                        slot as int,
                    );
                    assert(readable(load, store, *child, (52 - (depth + 1)) as nat));
                    assert(sound(
                        load,
                        *child,
                        store,
                        route,
                        structural_key@,
                        (depth + 1) as nat,
                    ));
                    assert(inserted(
                        *child,
                        *new_child,
                        store,
                        route,
                        structural_key@,
                        (depth + 1) as nat,
                        key.encoding(),
                        value.encoding(),
                    ));
                    insert_in_slot(
                        *tree,
                        *changed,
                        store,
                        route,
                        structural_key@,
                        depth as nat,
                        slot as int,
                        key.encoding(),
                        value.encoding(),
                    );
                }
                assert forall|store: spec_fn(StructuralHash) -> HamtNode<K, V>| #[trigger]
                    readable(load, store, *tree, levels) implies insert_ends::<K, V, E>(
                    hashes_of::<K, KeyHash>(*old(key_hash)),
                    path_end(*tree, store, path_hash@, depth as nat),
                    path_hash@,
                    key.encoding(),
                    Ok((changed, previous)),
                ) by {
                    assert(readable(load, store, *child, (52 - (depth + 1)) as nat));
                    assert(insert_ends::<K, V, E>(
                        hashes_of::<K, KeyHash>(*old(key_hash)),
                        path_end(*child, store, path_hash@, (depth + 1) as nat),
                        path_hash@,
                        key.encoding(),
                        below,
                    ));
                    assert(path_end(*tree, store, path_hash@, depth as nat) == path_end(
                        *child,
                        store,
                        path_hash@,
                        (depth + 1) as nat,
                    ));
                    same_displaced(below, Ok((changed, previous)));
                    same_ends::<K, V, E>(
                        hashes_of::<K, KeyHash>(*old(key_hash)),
                        path_end(*child, store, path_hash@, (depth + 1) as nat),
                        path_hash@,
                        key.encoding(),
                        below,
                        Ok((changed, previous)),
                    );
                }
            }
            Ok((changed, previous))
        },
        Err(error) => {
            proof {
                assert forall|store: spec_fn(StructuralHash) -> HamtNode<K, V>| #[trigger]
                    readable(load, store, *tree, levels) implies path_end(
                    *tree,
                    store,
                    path_hash@,
                    depth as nat,
                ) == path_end(*child, store, path_hash@, (depth + 1) as nat) && readable(
                    load,
                    store,
                    *child,
                    (52 - (depth + 1)) as nat,
                ) by {}
                if error is Resolve {
                    assert(path_fails::<K, V, E, F>(
                        *old(resolver),
                        *tree,
                        path_hash@,
                        depth as nat,
                        error->Resolve_0,
                    )) by {
                        path_fails_above::<K, V, E, F>(
                            *old(resolver),
                            *tree,
                            *child,
                            path_hash@,
                            depth as nat,
                            error->Resolve_0,
                        );
                    }
                }
            }
            Err(error)
        },
    }
}

/// What an insertion does for one relation of hashes it does for a wider one.
pub proof fn insert_outcome_wider<K: HamtCodec, V: HamtCodec, F, E>(
    hashes: spec_fn(Seq<u8>, StructuralHash) -> bool,
    wider: spec_fn(Seq<u8>, StructuralHash) -> bool,
    resolver: F,
    node: HamtNode<K, V>,
    structural_key: Seq<u8>,
    path: Seq<u8>,
    depth: nat,
    key: Seq<u8>,
    value: Seq<u8>,
    result: Result<(Arc<HamtNode<K, V>>, Option<V>), HamtMutateError<E>>,
) where F: FnMut(&StructuralHash) -> Result<Arc<HamtNode<K, V>>, E>
    requires
        forall|k: Seq<u8>, h: StructuralHash| #[trigger] hashes(k, h) ==> wider(k, h),
        insert_outcome::<K, V, F, E>(
            hashes,
            resolver,
            node,
            structural_key,
            path,
            depth,
            key,
            value,
            result,
        ),
    ensures
        insert_outcome::<K, V, F, E>(
            wider,
            resolver,
            node,
            structural_key,
            path,
            depth,
            key,
            value,
            result,
        ),
{
    let load = loader::<K, V, E, F>(resolver);
    if !(result matches Err(HamtMutateError::Resolve(_))) {
        assert forall|store: spec_fn(StructuralHash) -> HamtNode<K, V>| #[trigger]
            readable(load, store, node, (52 - depth) as nat) implies insert_ends::<K, V, E>(
            wider,
            path_end(node, store, path, depth),
            path,
            key,
            result,
        ) by {
            let end = path_end(node, store, path, depth);
            assert(insert_ends::<K, V, E>(hashes, end, path, key, result));
            match end {
                PathEnd::Leaf(at, k, v) => {
                    if k.encoding() != key {
                        let hash = choose|hash: StructuralHash| #[trigger]
                            hashes(k.encoding(), hash) && if same_path(hash@, path, at + 1) {
                                result matches Err(
                                    HamtMutateError::HashCollision { depth, bucket_size },
                                ) && depth == (if at == 51 {
                                    52int
                                } else {
                                    51int
                                }) && bucket_size == 2
                            } else {
                                displaced(result, None)
                            };
                        assert(wider(k.encoding(), hash));
                    }
                },
                _ => {},
            }
        }
        assert forall|route: spec_fn(Seq<u8>) -> Seq<u8>| along(
            wider,
            route,
        ) implies #[trigger] along(hashes, route) by {
            assert forall|k: Seq<u8>, h: StructuralHash| #[trigger] hashes(k, h) implies h@
                == route(k) by {
                assert(wider(k, h));
            }
        }
    }
}

/// Inserts or replaces a key/value pair in a trie using a caller-provided
/// routing hash for every key involved in the mutation.
///
/// This is the mutation equivalent of `get_with_key_hash` and is required for
/// trees built with `build_hamt_with_key_hash`.
///
/// Returns the new root and the value that previously occupied `key`, if any:
/// callers that maintain a homomorphic lattice alongside the tree need the
/// displaced value to subtract it before adding the new one.
///
/// # Errors
/// Returns `HamtMutateError::HashCollision` if the input exhausts the available
/// trie depth, or `HamtMutateError::Resolve` if `resolver` fails to load a lazy
/// child on the path to `key`.
pub fn insert_with_key_hash<K, V, KeyHash, F, E>(
    node: &Arc<HamtNode<K, V>>,
    structural_key: &[u8],
    key: K,
    value: V,
    mut key_hash: KeyHash,
    resolver: &mut F,
) -> (result: Result<(Arc<HamtNode<K, V>>, Option<V>), HamtMutateError<E>>) where
    K: HamtCodec + Clone,
    V: HamtCodec + Clone,
    KeyHash: FnMut(&K) -> StructuralHash,
    F: FnMut(&StructuralHash) -> Result<Arc<HamtNode<K, V>>, E>,

    requires
        resolver_total::<K, V, E, F>(*old(resolver)),
        routing_total::<K, KeyHash>(key_hash),
        exists|store: spec_fn(StructuralHash) -> HamtNode<K, V>| #[trigger]
            readable(loader::<K, V, E, F>(*old(resolver)), store, **node, 52),
        key.encodable(),
        value.encodable(),
        clone_keeps::<K>(),
        clone_keeps::<V>(),
    ensures
        *final(resolver) == *old(resolver),
        exists|path: StructuralHash|
            {
                &&& #[trigger] call_ensures(key_hash, (&key,), path)
                &&& insert_outcome::<K, V, F, E>(
                    hashes_of::<K, KeyHash>(key_hash),
                    *old(resolver),
                    **node,
                    structural_key@,
                    path@,
                    0,
                    key.encoding(),
                    value.encoding(),
                    result,
                )
            },
{
    let path_hash: StructuralHash = key_hash(&key);
    proof {
        let store = choose|store: spec_fn(StructuralHash) -> HamtNode<K, V>| #[trigger]
            readable(loader::<K, V, E, F>(*old(resolver)), store, **node, 52);
        assert(readable(loader::<K, V, E, F>(*resolver), store, **node, (52 - 0usize) as nat));
    }
    insert_node_with_ctx(node, structural_key, key, value, path_hash, 0, &mut key_hash, resolver)
}

/// Inserts or replaces a key/value pair in a trie by copying the path to it,
/// without rebuilding the whole tree.
///
/// Returns the new root and the value that previously occupied `key`, if any.
/// This helper is only correct for trees built with `build_hamt`.
///
/// # Errors
/// Returns `HamtMutateError::HashCollision` if the input exhausts the available
/// trie depth, or `HamtMutateError::Resolve` if `resolver` fails to load a lazy
/// child on the path to `key`.
pub fn insert<K, V, F, E>(
    node: &Arc<HamtNode<K, V>>,
    structural_key: &[u8],
    key: K,
    value: V,
    resolver: &mut F,
) -> (result: Result<(Arc<HamtNode<K, V>>, Option<V>), HamtMutateError<E>>) where
    K: HamtKey + Clone,
    V: HamtCodec + Clone,
    F: FnMut(&StructuralHash) -> Result<Arc<HamtNode<K, V>>, E>,

    requires
        resolver_total::<K, V, E, F>(*old(resolver)),
        exists|store: spec_fn(StructuralHash) -> HamtNode<K, V>| #[trigger]
            readable(loader::<K, V, E, F>(*old(resolver)), store, **node, 52),
        key.encodable(),
        value.encodable(),
        clone_keeps::<K>(),
        clone_keeps::<V>(),
    ensures
        *final(resolver) == *old(resolver),
        insert_outcome::<K, V, F, E>(
            default_hashes::<K>(structural_key@),
            *old(resolver),
            **node,
            structural_key@,
            default_route::<K>(structural_key@)(key.encoding()),
            0,
            key.encoding(),
            value.encoding(),
            result,
        ),
{
    let key_hash = |key: &K| -> (hash: StructuralHash)
        requires
            key.encodable(),
        ensures
            hash@ == default_route::<K>(structural_key@)(key.encoding()),
        { key_path_hash(structural_key, key) };
    let ghost hashes = hashes_of::<K, _>(key_hash);
    let ghost wider = default_hashes::<K>(structural_key@);
    proof {
        assert forall|k: Seq<u8>, h: StructuralHash| #[trigger] hashes(k, h) implies wider(
            k,
            h,
        ) by {}
    }
    let result: Result<(Arc<HamtNode<K, V>>, Option<V>), HamtMutateError<E>> = insert_with_key_hash(
        node,
        structural_key,
        key,
        value,
        key_hash,
        resolver,
    );
    proof {
        assert(insert_outcome::<K, V, F, E>(
            wider,
            *old(resolver),
            **node,
            structural_key@,
            default_route::<K>(structural_key@)(key.encoding()),
            0,
            key.encoding(),
            value.encoding(),
            result,
        )) by {
            insert_outcome_wider::<K, V, F, E>(
                hashes,
                wider,
                *old(resolver),
                **node,
                structural_key@,
                default_route::<K>(structural_key@)(key.encoding()),
                0,
                key.encoding(),
                value.encoding(),
                result,
            );
        }
    }
    result
}

/// What remains of a subtree after a leaf was removed from it.
#[derive(Debug)]
pub enum RemoveOutcome<K, V> {
    /// The subtree has no entries left.
    Empty,
    /// The subtree collapsed to a single leaf, which must be inlined into the
    /// parent's `datamap` rather than kept as a child node: the same invariant
    /// that building from scratch establishes.
    Leaf(K, V),
    /// The subtree still has two or more entries and remains a node.
    Node(Arc<HamtNode<K, V>>),
}

/// What remains holds the key with the value.
pub open spec fn left<K: HamtCodec, V: HamtCodec>(
    outcome: RemoveOutcome<K, V>,
    store: spec_fn(StructuralHash) -> HamtNode<K, V>,
    key: Seq<u8>,
    value: Seq<u8>,
    depth: nat,
) -> bool {
    match outcome {
        RemoveOutcome::Empty => false,
        RemoveOutcome::Leaf(k, v) => key == k.encoding() && value == v.encoding(),
        RemoveOutcome::Node(node) => holds(*node, store, key, value, depth),
    }
}

/// How a removal ends that could load every node on its way: by where the
/// route of the key leads.
pub open spec fn remove_ends<K: HamtCodec, V: HamtCodec>(
    end: PathEnd<K, V>,
    key: Seq<u8>,
    removed: Option<V>,
) -> bool {
    match end {
        PathEnd::Empty => removed is None,
        PathEnd::Leaf(_, k, v) => if k.encoding() == key {
            removed matches Some(value) && value.encoding() == v.encoding()
        } else {
            removed is None
        },
        PathEnd::Deep(_) => false,
    }
}

/// What a removal step does.
pub open spec fn step_outcome<K: HamtCodec, V: HamtCodec, F, E>(
    resolver: F,
    node: HamtNode<K, V>,
    structural_key: Seq<u8>,
    path: Seq<u8>,
    depth: nat,
    key: Seq<u8>,
    result: Result<(RemoveOutcome<K, V>, Option<V>), HamtMutateError<E>>,
) -> bool where F: FnMut(&StructuralHash) -> Result<Arc<HamtNode<K, V>>, E> {
    let load = loader::<K, V, E, F>(resolver);
    match result {
        Err(HamtMutateError::Resolve(error)) => path_fails::<K, V, E, F>(
            resolver,
            node,
            path,
            depth,
            error,
        ),
        Err(HamtMutateError::HashCollision { .. }) => false,
        Err(HamtMutateError::MaxDepthExceeded { depth: at }) => {
            &&& at == 52
            &&& forall|store: spec_fn(StructuralHash) -> HamtNode<K, V>| #[trigger]
                readable(load, store, node, (52 - depth) as nat) ==> path_end(
                    node,
                    store,
                    path,
                    depth,
                ) is Deep
        },
        Ok((outcome, removed)) => {
            &&& forall|store: spec_fn(StructuralHash) -> HamtNode<K, V>| #[trigger]
                readable(load, store, node, (52 - depth) as nat) ==> remove_ends(
                    path_end(node, store, path, depth),
                    key,
                    removed,
                )
            &&& removed is None ==> (outcome matches RemoveOutcome::Node(same) && *same == node)
            &&& removed is Some ==> {
                &&& outcome matches RemoveOutcome::Leaf(k, v) ==> k.encodable() && v.encodable()
                &&& outcome matches RemoveOutcome::Node(rest) ==> {
                    &&& dense(*rest)
                    &&& rest.structural_hash@ == rest.digest(structural_key)
                }
            }
            &&& outcome matches RemoveOutcome::Node(rest) ==> forall|
                store: spec_fn(StructuralHash) -> HamtNode<K, V>,
            | #[trigger]
                readable(load, store, node, (52 - depth) as nat) ==> readable(
                    load,
                    store,
                    *rest,
                    (52 - depth) as nat,
                )
            &&& forall|
                store: spec_fn(StructuralHash) -> HamtNode<K, V>,
                route: spec_fn(Seq<u8>) -> Seq<u8>,
            | #[trigger]
                sound(load, node, store, route, structural_key, depth) && route(key) == path ==> {
                    &&& outcome matches RemoveOutcome::Node(rest) ==> canonical(
                        *rest,
                        store,
                        route,
                        structural_key,
                        depth,
                    )
                    &&& forall|k: Seq<u8>, v: Seq<u8>| #[trigger]
                        left(outcome, store, k, v, depth) <==> holds(node, store, k, v, depth) && k
                            != key
                }
        },
    }
}

/// A changed slot that holds what it held before but for the key makes a
/// removal.
proof fn remove_in_slot<K: HamtCodec, V: HamtCodec>(
    a: HamtNode<K, V>,
    b: HamtNode<K, V>,
    store: spec_fn(StructuralHash) -> HamtNode<K, V>,
    route: spec_fn(Seq<u8>) -> Seq<u8>,
    structural_key: Seq<u8>,
    depth: nat,
    slot: int,
    key: Seq<u8>,
)
    requires
        0 <= slot < 32,
        canonical(a, store, route, structural_key, depth),
        same_but(a, b, slot),
        bucket(route(key), depth) == slot,
        forall|k: Seq<u8>, v: Seq<u8>| #[trigger]
            slot_holds(b, store, k, v, depth, slot) <==> slot_holds(a, store, k, v, depth, slot)
                && k != key,
    ensures
        forall|k: Seq<u8>, v: Seq<u8>| #[trigger]
            holds(b, store, k, v, depth) <==> holds(a, store, k, v, depth) && k != key,
{
    slot_entries(a, b, store, route, structural_key, depth, slot);
    assert forall|k: Seq<u8>, v: Seq<u8>| #[trigger]
        holds(b, store, k, v, depth) <==> holds(a, store, k, v, depth) && k != key by {
        assert(slot_holds(b, store, k, v, depth, slot) <==> slot_holds(a, store, k, v, depth, slot)
            && k != key);
        assert(slot_holds(a, store, k, v, depth, slot) <==> holds(a, store, k, v, depth) && bucket(
            route(k),
            depth,
        ) == slot);
    }
}

/// The outcome for the contents of a node.
spec fn outcome_of<K: HamtCodec, V: HamtCodec>(
    parts: Parts<K, V>,
    structural_key: Seq<u8>,
    outcome: RemoveOutcome<K, V>,
) -> bool {
    match outcome {
        RemoveOutcome::Empty => parts.nodemap == 0 && parts.leaves@.len() == 0,
        RemoveOutcome::Leaf(k, v) => {
            &&& parts.nodemap == 0
            &&& parts.leaves@.len() == 1
            &&& parts.leaves@[0] == (k, v)
            &&& k.encodable()
            &&& v.encodable()
        },
        RemoveOutcome::Node(node) => {
            &&& dense(*node)
            &&& node.datamap == parts.datamap
            &&& node.nodemap == parts.nodemap
            &&& node.leaves == parts.leaves
            &&& node.children == parts.children
            &&& node.shape()
            &&& node.structural_hash@ == node.digest(structural_key)
        },
    }
}

/// Builds the outcome for a node whose contents just changed, collapsing it to
/// a leaf or nothing if it no longer has enough entries to justify being a
/// node, so the structural hash always matches what building from scratch
/// would have produced for the same final key set.
fn finalize_after_removal<K: HamtCodec, V: HamtCodec>(
    structural_key: &[u8],
    parts: Parts<K, V>,
    Ghost(hash): Ghost<StructuralHash>,
) -> (outcome: RemoveOutcome<K, V>)
    requires
        parts.node(hash).shape(),
    ensures
        outcome_of(parts, structural_key@, outcome),
{
    let ghost node = parts.node(hash);
    let Parts { datamap, nodemap, leaves, children } = parts;
    if nodemap == 0 {
        if leaves.len() == 0 {
            return RemoveOutcome::Empty;
        }
        if leaves.len() == 1 {
            let mut leaves: Vec<(K, V)> = leaves;
            proof {
                assert(node.leaves@[0].0.encodable());
            }
            let entry: (K, V) = leaves.remove(0);
            return RemoveOutcome::Leaf(entry.0, entry.1);
        }
    }
    RemoveOutcome::Node(rebuild_node(structural_key, datamap, nodemap, leaves, children))
}

/// The outcome holds what the contents hold.
proof fn outcome_holds<K: HamtCodec, V: HamtCodec>(
    parts: Parts<K, V>,
    hash: StructuralHash,
    structural_key: Seq<u8>,
    outcome: RemoveOutcome<K, V>,
    store: spec_fn(StructuralHash) -> HamtNode<K, V>,
    depth: nat,
)
    requires
        depth < 52,
        parts.node(hash).shape(),
        outcome_of(parts, structural_key, outcome),
    ensures
        forall|k: Seq<u8>, v: Seq<u8>| #[trigger]
            left(outcome, store, k, v, depth) <==> holds(parts.node(hash), store, k, v, depth),
{
    let b = parts.node(hash);
    assert forall|k: Seq<u8>, v: Seq<u8>| #[trigger]
        left(outcome, store, k, v, depth) <==> holds(b, store, k, v, depth) by {
        match outcome {
            RemoveOutcome::Empty => {
                if holds(b, store, k, v, depth) {
                    let t = node_in_slot(b, store, k, v, depth);
                    slot_updates(0, t, t);
                    rank_monotone(b.datamap, t + 1, 32);
                }
            },
            RemoveOutcome::Leaf(key, value) => {
                let s = select_slot(b.datamap, 0);
                select_facts(b.datamap, 0);
                if holds(b, store, k, v, depth) {
                    let t = node_in_slot(b, store, k, v, depth);
                    slot_updates(0, t, t);
                    rank_injective(b.datamap, t, s);
                }
                if left(outcome, store, k, v, depth) {
                    slot_in_node(b, store, k, v, depth, s);
                }
            },
            RemoveOutcome::Node(node) => {
                if holds(b, store, k, v, depth) {
                    let t = node_in_slot(b, store, k, v, depth);
                    slot_in_node(*node, store, k, v, depth, t);
                }
                if holds(*node, store, k, v, depth) {
                    let t = node_in_slot(*node, store, k, v, depth);
                    slot_in_node(b, store, k, v, depth, t);
                }
            },
        }
    }
}

/// The outcome of changed contents is that of a removal.
proof fn outcome_step<K: HamtCodec, V: HamtCodec>(
    a: HamtNode<K, V>,
    parts: Parts<K, V>,
    structural_key: Seq<u8>,
    outcome: RemoveOutcome<K, V>,
    store: spec_fn(StructuralHash) -> HamtNode<K, V>,
    route: spec_fn(Seq<u8>) -> Seq<u8>,
    depth: nat,
    slot: int,
    key: Seq<u8>,
)
    requires
        0 <= slot < 32,
        canonical(a, store, route, structural_key, depth),
        parts.node(a.structural_hash).shape(),
        same_but(a, parts.node(a.structural_hash), slot),
        outcome_of(parts, structural_key, outcome),
        depth == 51 ==> parts.nodemap == 0,
        bucket(route(key), depth) == slot,
        !slot_set(parts.nodemap, slot),
        slot_set(parts.datamap, slot) ==> bucket(
            route(parts.node(a.structural_hash).leaf(slot).0.encoding()),
            depth,
        ) == slot,
        forall|k: Seq<u8>, v: Seq<u8>| #[trigger]
            slot_holds(parts.node(a.structural_hash), store, k, v, depth, slot) <==> slot_holds(
                a,
                store,
                k,
                v,
                depth,
                slot,
            ) && k != key,
    ensures
        outcome matches RemoveOutcome::Node(rest) ==> canonical(
            *rest,
            store,
            route,
            structural_key,
            depth,
        ),
        forall|k: Seq<u8>, v: Seq<u8>| #[trigger]
            left(outcome, store, k, v, depth) <==> holds(a, store, k, v, depth) && k != key,
{
    let b = parts.node(a.structural_hash);
    remove_in_slot(a, b, store, route, structural_key, depth, slot, key);
    outcome_holds(parts, a.structural_hash, structural_key, outcome, store, depth);
    assert forall|k: Seq<u8>, v: Seq<u8>| #[trigger]
        left(outcome, store, k, v, depth) <==> holds(a, store, k, v, depth) && k != key by {
        assert(holds(b, store, k, v, depth) <==> holds(a, store, k, v, depth) && k != key);
    }
    match outcome {
        RemoveOutcome::Node(rest) => {
            assert(same_but(a, *rest, slot)) by {
                assert forall|t: int| 0 <= t < 32 && t != slot implies #[trigger]
                    same_slot(a, *rest, t) by {
                    assert(same_slot(a, b, t));
                }
            }
            assert(rest.leaf(slot) == b.leaf(slot));
            assert(canonical(*rest, store, route, structural_key, depth)) by {
                slot_change(a, *rest, store, route, structural_key, depth, slot);
            }
        },
        _ => {},
    }
}

/// Contents whose children are among those of a readable node.
proof fn readable_rest<K: HamtCodec, V: HamtCodec>(
    load: spec_fn(StructuralHash, HamtNode<K, V>) -> bool,
    store: spec_fn(StructuralHash) -> HamtNode<K, V>,
    a: HamtNode<K, V>,
    rest: HamtNode<K, V>,
    levels: nat,
)
    requires
        readable(load, store, a, levels),
        rest.shape(),
        rest.children@ == a.children@ || exists|place: int|
            0 <= place < a.children@.len() && rest.children@ == #[trigger] a.children@.remove(
                place,
            ),
    ensures
        readable(load, store, rest, levels),
{
    assert forall|i: int| 0 <= i < rest.children@.len() implies exists|j: int|
        0 <= j < a.children@.len() && #[trigger] a.children@[j]
            == #[trigger] rest.children@[i] by {
        if rest.children@ == a.children@ {
            assert(a.children@[i] == rest.children@[i]);
        } else {
            let place = choose|place: int|
                0 <= place < a.children@.len() && rest.children@ == #[trigger] a.children@.remove(
                    place,
                );
            if i < place {
                assert(a.children@[i] == rest.children@[i]);
            } else {
                assert(a.children@[i + 1] == rest.children@[i]);
            }
        }
    }
    readable_change(load, store, a, rest, levels);
}

/// Removes an entry from the node at a depth.
pub fn remove_node_with_ctx<K, V, F, E>(
    node: &Arc<HamtNode<K, V>>,
    structural_key: &[u8],
    key: &K,
    path_hash: &StructuralHash,
    depth: usize,
    resolver: &mut F,
) -> (result: Result<(RemoveOutcome<K, V>, Option<V>), HamtMutateError<E>>) where
    K: HamtCodec + Clone,
    V: HamtCodec + Clone,
    F: FnMut(&StructuralHash) -> Result<Arc<HamtNode<K, V>>, E>,

    requires
        depth <= 52,
        resolver_total::<K, V, E, F>(*old(resolver)),
        exists|store: spec_fn(StructuralHash) -> HamtNode<K, V>| #[trigger]
            readable(loader::<K, V, E, F>(*old(resolver)), store, **node, (52 - depth) as nat),
        key.encodable(),
        clone_keeps::<K>(),
        clone_keeps::<V>(),
    ensures
        *final(resolver) == *old(resolver),
        step_outcome::<K, V, F, E>(
            *old(resolver),
            **node,
            structural_key@,
            path_hash@,
            depth as nat,
            key.encoding(),
            result,
        ),
    decreases 52 - depth,
{
    let tree: &HamtNode<K, V> = &**node;
    let ghost load = loader::<K, V, E, F>(*resolver);
    let ghost levels = (52 - depth) as nat;
    let ghost some_store = choose|store: spec_fn(StructuralHash) -> HamtNode<K, V>| #[trigger]
        readable(load, store, *tree, levels);
    proof {
        assert(tree.shape());
    }
    if depth >= HAMT_MAX_DEPTH {
        return Err(HamtMutateError::MaxDepthExceeded { depth: HAMT_MAX_DEPTH });
    }
    let slot: usize = bucket_index(path_hash, depth);
    if has_slot(tree.datamap, slot) {
        proof {
            leaf_in_range(*tree, slot as int);
            disjoint_slots(tree.datamap, tree.nodemap, slot as int);
        }
        let index: usize = map_index(tree.datamap, slot);
        if !tree.leaves[index].0.same_encoding(key) {
            proof {
                unchanged::<K, V, F, E>(
                    *resolver,
                    *tree,
                    structural_key@,
                    path_hash@,
                    depth as nat,
                    key.encoding(),
                );
            }
            return Ok((RemoveOutcome::Node(node.clone()), None));
        }
        let (parts, previous) = without_leaf(tree, slot);
        let outcome: RemoveOutcome<K, V> = finalize_after_removal(
            structural_key,
            parts,
            Ghost(tree.structural_hash),
        );
        proof {
            assert forall|
                store: spec_fn(StructuralHash) -> HamtNode<K, V>,
                route: spec_fn(Seq<u8>) -> Seq<u8>,
            | #[trigger]
                sound(load, *tree, store, route, structural_key@, depth as nat) && route(
                    key.encoding(),
                ) == path_hash@ implies {
                &&& outcome matches RemoveOutcome::Node(rest) ==> canonical(
                    *rest,
                    store,
                    route,
                    structural_key@,
                    depth as nat,
                )
                &&& forall|k: Seq<u8>, v: Seq<u8>| #[trigger]
                    left(outcome, store, k, v, depth as nat) <==> holds(
                        *tree,
                        store,
                        k,
                        v,
                        depth as nat,
                    ) && k != key.encoding()
            } by {
                outcome_step(
                    *tree,
                    parts,
                    structural_key@,
                    outcome,
                    store,
                    route,
                    depth as nat,
                    slot as int,
                    key.encoding(),
                );
            }
            assert forall|store: spec_fn(StructuralHash) -> HamtNode<K, V>| #[trigger]
                readable(load, store, *tree, levels) implies (outcome matches RemoveOutcome::Node(
                rest,
            ) ==> readable(load, store, *rest, levels)) by {
                match outcome {
                    RemoveOutcome::Node(rest) => {
                        assert(readable(load, store, *rest, levels)) by {
                            readable_rest(load, store, *tree, *rest, levels);
                        }
                    },
                    _ => {},
                }
            }
        }
        return Ok((outcome, Some(previous)));
    }
    if !has_slot(tree.nodemap, slot) {
        proof {
            unchanged::<K, V, F, E>(
                *resolver,
                *tree,
                structural_key@,
                path_hash@,
                depth as nat,
                key.encoding(),
            );
        }
        return Ok((RemoveOutcome::Node(node.clone()), None));
    }
    proof {
        readable_child(load, some_store, *tree, levels, slot as int);
    }
    let index: usize = map_index(tree.nodemap, slot);
    let child: Arc<HamtNode<K, V>> = match resolve_node(&tree.children[index], resolver) {
        Ok(child) => child,
        Err(error) => {
            proof {
                let hash = tree.child(slot as int)->Lazy_0;
                assert forall|store: spec_fn(StructuralHash) -> HamtNode<K, V>| #[trigger]
                    readable(load, store, *tree, levels) implies path_loads(
                    load,
                    *tree,
                    store,
                    path_hash@,
                    depth as nat,
                    hash,
                ) by {}
            }
            return Err(HamtMutateError::Resolve(error));
        },
    };
    proof {
        assert forall|store: spec_fn(StructuralHash) -> HamtNode<K, V>| #[trigger]
            readable(load, store, *tree, levels) implies readable(
            load,
            store,
            *child,
            (52 - (depth + 1)) as nat,
        ) && *child == node_at(tree.child(slot as int), store) && path_end(
            *tree,
            store,
            path_hash@,
            depth as nat,
        ) == path_end(*child, store, path_hash@, (depth + 1) as nat) by {
            readable_child(load, store, *tree, levels, slot as int);
        }
        assert(readable(load, some_store, *child, (52 - (depth + 1)) as nat));
    }
    let below: Result<(RemoveOutcome<K, V>, Option<V>), HamtMutateError<E>> = remove_node_with_ctx(
        &child,
        structural_key,
        key,
        path_hash,
        depth + 1,
        resolver,
    );
    let (child_outcome, removed) = match below {
        Ok(pair) => pair,
        Err(error) => {
            proof {
                assert forall|store: spec_fn(StructuralHash) -> HamtNode<K, V>| #[trigger]
                    readable(load, store, *tree, levels) implies readable(
                    load,
                    store,
                    *child,
                    (52 - (depth + 1)) as nat,
                ) by {}
                if error is Resolve {
                    assert(path_fails::<K, V, E, F>(
                        *old(resolver),
                        *tree,
                        path_hash@,
                        depth as nat,
                        error->Resolve_0,
                    )) by {
                        path_fails_above::<K, V, E, F>(
                            *old(resolver),
                            *tree,
                            *child,
                            path_hash@,
                            depth as nat,
                            error->Resolve_0,
                        );
                    }
                }
            }
            return Err(error);
        },
    };
    proof {
        assert forall|store: spec_fn(StructuralHash) -> HamtNode<K, V>| #[trigger]
            readable(load, store, *tree, levels) implies remove_ends(
            path_end(*tree, store, path_hash@, depth as nat),
            key.encoding(),
            removed,
        ) by {
            assert(readable(load, store, *child, (52 - (depth + 1)) as nat));
        }
    }
    let previous: V = match removed {
        Some(previous) => previous,
        None => {
            proof {
                unchanged::<K, V, F, E>(
                    *old(resolver),
                    *tree,
                    structural_key@,
                    path_hash@,
                    depth as nat,
                    key.encoding(),
                );
            }
            return Ok((RemoveOutcome::Node(node.clone()), None));
        },
    };
    proof {
        // What the child held but for the key is what is left of it.
        assert forall|
            store: spec_fn(StructuralHash) -> HamtNode<K, V>,
            route: spec_fn(Seq<u8>) -> Seq<u8>,
        | #[trigger]
            sound(load, *tree, store, route, structural_key@, depth as nat) && route(
                key.encoding(),
            ) == path_hash@ implies {
            &&& slot_canonical(*tree, store, route, structural_key@, depth as nat, slot as int)
            &&& *child == node_at(tree.child(slot as int), store)
            &&& child_outcome matches RemoveOutcome::Node(rest) ==> canonical(
                *rest,
                store,
                route,
                structural_key@,
                (depth + 1) as nat,
            )
            &&& forall|k: Seq<u8>, v: Seq<u8>| #[trigger]
                left(child_outcome, store, k, v, (depth + 1) as nat) <==> holds(
                    *child,
                    store,
                    k,
                    v,
                    (depth + 1) as nat,
                ) && k != key.encoding()
        } by {
            canonical_slot(*tree, store, route, structural_key@, depth as nat, slot as int);
            assert(readable(load, store, *child, (52 - (depth + 1)) as nat));
            assert(sound(load, *child, store, route, structural_key@, (depth + 1) as nat));
        }
    }
    let leaf: Option<(K, V)> = match child_outcome {
        RemoveOutcome::Node(new_child) => {
            let changed: Arc<HamtNode<K, V>> = with_child(tree, structural_key, slot, new_child);
            proof {
                let place = rank(tree.nodemap, slot as int) as int;
                assert forall|store: spec_fn(StructuralHash) -> HamtNode<K, V>| #[trigger]
                    readable(load, store, *tree, levels) implies readable(
                    load,
                    store,
                    *changed,
                    levels,
                ) by {
                    assert(readable(load, store, *child, (52 - (depth + 1)) as nat));
                    assert(readable(load, store, *new_child, (52 - (depth + 1)) as nat));
                    assert forall|i: int| 0 <= i < changed.children@.len() implies {
                        ||| exists|j: int|
                            0 <= j < tree.children@.len() && #[trigger] tree.children@[j]
                                == changed.children@[i]
                        ||| #[trigger] changed.children@[i] matches NodeRef::Resolved(c)
                            && readable(load, store, *c, (levels - 1) as nat)
                    } by {
                        if i != place {
                            assert(tree.children@[i] == changed.children@[i]);
                        }
                    }
                    readable_change(load, store, *tree, *changed, levels);
                }
                assert forall|
                    store: spec_fn(StructuralHash) -> HamtNode<K, V>,
                    route: spec_fn(Seq<u8>) -> Seq<u8>,
                | #[trigger]
                    sound(load, *tree, store, route, structural_key@, depth as nat) && route(
                        key.encoding(),
                    ) == path_hash@ implies {
                    &&& canonical(*changed, store, route, structural_key@, depth as nat)
                    &&& forall|k: Seq<u8>, v: Seq<u8>| #[trigger]
                        holds(*changed, store, k, v, depth as nat) <==> holds(
                            *tree,
                            store,
                            k,
                            v,
                            depth as nat,
                        ) && k != key.encoding()
                } by {
                    assert(forall|k: Seq<u8>, v: Seq<u8>| #[trigger]
                        holds(*new_child, store, k, v, (depth + 1) as nat) <==> left(
                            child_outcome,
                            store,
                            k,
                            v,
                            (depth + 1) as nat,
                        ));
                    slot_change(
                        *tree,
                        *changed,
                        store,
                        route,
                        structural_key@,
                        depth as nat,
                        slot as int,
                    );
                    remove_in_slot(
                        *tree,
                        *changed,
                        store,
                        route,
                        structural_key@,
                        depth as nat,
                        slot as int,
                        key.encoding(),
                    );
                }
                some_nodes(changed.nodemap, slot as int);
                let outcome = RemoveOutcome::Node(changed);
                assert(forall|
                    store: spec_fn(StructuralHash) -> HamtNode<K, V>,
                    k: Seq<u8>,
                    v: Seq<u8>,
                | #[trigger]
                    left(outcome, store, k, v, depth as nat) <==> holds(
                        *changed,
                        store,
                        k,
                        v,
                        depth as nat,
                    ));
            }
            return Ok((RemoveOutcome::Node(changed), Some(previous)));
        },
        RemoveOutcome::Empty => None,
        RemoveOutcome::Leaf(leaf_key, leaf_value) => Some((leaf_key, leaf_value)),
    };
    let parts: Parts<K, V> = without_child(tree, slot, leaf);
    let outcome: RemoveOutcome<K, V> = finalize_after_removal(
        structural_key,
        parts,
        Ghost(tree.structural_hash),
    );
    proof {
        assert forall|
            store: spec_fn(StructuralHash) -> HamtNode<K, V>,
            route: spec_fn(Seq<u8>) -> Seq<u8>,
        | #[trigger]
            sound(load, *tree, store, route, structural_key@, depth as nat) && route(
                key.encoding(),
            ) == path_hash@ implies {
            &&& outcome matches RemoveOutcome::Node(rest) ==> canonical(
                *rest,
                store,
                route,
                structural_key@,
                depth as nat,
            )
            &&& forall|k: Seq<u8>, v: Seq<u8>| #[trigger]
                left(outcome, store, k, v, depth as nat) <==> holds(
                    *tree,
                    store,
                    k,
                    v,
                    depth as nat,
                ) && k != key.encoding()
        } by {
            let b = parts.node(tree.structural_hash);
            let next = (depth + 1) as nat;
            if leaf is Some {
                assert(left(
                    child_outcome,
                    store,
                    leaf->Some_0.0.encoding(),
                    leaf->Some_0.1.encoding(),
                    next,
                ));
                assert(holds(
                    *child,
                    store,
                    leaf->Some_0.0.encoding(),
                    leaf->Some_0.1.encoding(),
                    next,
                ));
            }
            assert forall|k: Seq<u8>, v: Seq<u8>| #[trigger]
                slot_holds(b, store, k, v, depth as nat, slot as int) <==> slot_holds(
                    *tree,
                    store,
                    k,
                    v,
                    depth as nat,
                    slot as int,
                ) && k != key.encoding() by {
                assert(left(child_outcome, store, k, v, next) <==> holds(*child, store, k, v, next)
                    && k != key.encoding());
            }
            outcome_step(
                *tree,
                parts,
                structural_key@,
                outcome,
                store,
                route,
                depth as nat,
                slot as int,
                key.encoding(),
            );
        }
        assert forall|store: spec_fn(StructuralHash) -> HamtNode<K, V>| #[trigger]
            readable(load, store, *tree, levels) implies (outcome matches RemoveOutcome::Node(
            rest,
        ) ==> readable(load, store, *rest, levels)) by {
            match outcome {
                RemoveOutcome::Node(rest) => {
                    assert(readable(load, store, *rest, levels)) by {
                        readable_rest(load, store, *tree, *rest, levels);
                    }
                },
                _ => {},
            }
        }
    }
    Ok((outcome, Some(previous)))
}

/// A bitmap with a mark is not zero.
proof fn some_nodes(bitmap: u32, slot: int)
    requires
        0 <= slot < 32,
        slot_set(bitmap, slot),
    ensures
        bitmap != 0,
{
    slot_updates(0, slot, slot);
}

/// Where the route of a key does not lead to it, nothing is removed.
proof fn unchanged<K: HamtCodec, V: HamtCodec, F, E>(
    resolver: F,
    node: HamtNode<K, V>,
    structural_key: Seq<u8>,
    path: Seq<u8>,
    depth: nat,
    key: Seq<u8>,
) where F: FnMut(&StructuralHash) -> Result<Arc<HamtNode<K, V>>, E>
    requires
        forall|store: spec_fn(StructuralHash) -> HamtNode<K, V>| #[trigger]
            readable(loader::<K, V, E, F>(resolver), store, node, (52 - depth) as nat)
                ==> remove_ends(path_end(node, store, path, depth), key, None),
    ensures
        forall|
            store: spec_fn(StructuralHash) -> HamtNode<K, V>,
            route: spec_fn(Seq<u8>) -> Seq<u8>,
        | #[trigger]
            sound(
                loader::<K, V, E, F>(resolver),
                node,
                store,
                route,
                structural_key,
                depth,
            ) && route(key) == path ==> forall|k: Seq<u8>, v: Seq<u8>| #[trigger]
                holds(node, store, k, v, depth) ==> k != key,
{
    assert forall|
        store: spec_fn(StructuralHash) -> HamtNode<K, V>,
        route: spec_fn(Seq<u8>) -> Seq<u8>,
    | #[trigger]
        sound(loader::<K, V, E, F>(resolver), node, store, route, structural_key, depth) && route(
            key,
        ) == path implies forall|k: Seq<u8>, v: Seq<u8>| #[trigger]
        holds(node, store, k, v, depth) ==> k != key by {
        assert forall|k: Seq<u8>, v: Seq<u8>| #[trigger] holds(node, store, k, v, depth) implies k
            != key by {
            if k == key {
                lookup_finds(node, store, route, structural_key, k, v, depth);
                lookup_at_end(node, store, path, key, depth);
            }
        }
    }
}

/// A lookup finds what stands where the route leads.
pub proof fn lookup_at_end<K: HamtCodec, V: HamtCodec>(
    node: HamtNode<K, V>,
    store: spec_fn(StructuralHash) -> HamtNode<K, V>,
    path: Seq<u8>,
    key: Seq<u8>,
    depth: nat,
)
    ensures
        lookup(node, store, path, key, depth) == match path_end(node, store, path, depth) {
            PathEnd::Leaf(_, k, v) => if k.encoding() == key {
                Some(v.encoding())
            } else {
                None
            },
            _ => None,
        },
    decreases 52 - depth,
{
    if depth < 52 {
        let slot = bucket(path, depth);
        if !slot_set(node.datamap, slot) && slot_set(node.nodemap, slot) {
            lookup_at_end(node_at(node.child(slot), store), store, path, key, depth + 1);
        }
    }
}

/// The new trie is canonical and holds what the old one held but for the key.
pub open spec fn taken_out<K: HamtCodec, V: HamtCodec>(
    node: HamtNode<K, V>,
    changed: HamtNode<K, V>,
    store: spec_fn(StructuralHash) -> HamtNode<K, V>,
    route: spec_fn(Seq<u8>) -> Seq<u8>,
    structural_key: Seq<u8>,
    key: Seq<u8>,
) -> bool {
    &&& canonical(changed, store, route, structural_key, 0)
    &&& forall|k: Seq<u8>, v: Seq<u8>| #[trigger]
        holds(changed, store, k, v, 0) <==> holds(node, store, k, v, 0) && k != key
}

/// What a removal does. `Ok` comes with the changed trie and the value that
/// was held before.
pub open spec fn remove_outcome<K: HamtCodec, V: HamtCodec, F, E>(
    hashes: spec_fn(Seq<u8>, StructuralHash) -> bool,
    resolver: F,
    node: HamtNode<K, V>,
    structural_key: Seq<u8>,
    path: Seq<u8>,
    key: Seq<u8>,
    result: Result<(Arc<HamtNode<K, V>>, Option<V>), HamtMutateError<E>>,
) -> bool where F: FnMut(&StructuralHash) -> Result<Arc<HamtNode<K, V>>, E> {
    let load = loader::<K, V, E, F>(resolver);
    match result {
        Err(HamtMutateError::Resolve(error)) => path_fails::<K, V, E, F>(
            resolver,
            node,
            path,
            0,
            error,
        ),
        Err(HamtMutateError::HashCollision { .. }) => false,
        Err(HamtMutateError::MaxDepthExceeded { depth }) => {
            &&& depth == 52
            &&& forall|store: spec_fn(StructuralHash) -> HamtNode<K, V>| #[trigger]
                readable(load, store, node, 52) ==> path_end(node, store, path, 0) is Deep
        },
        Ok((changed, removed)) => {
            &&& forall|store: spec_fn(StructuralHash) -> HamtNode<K, V>| #[trigger]
                readable(load, store, node, 52) ==> {
                    &&& remove_ends(path_end(node, store, path, 0), key, removed)
                    &&& readable(load, store, *changed, 52)
                }
            &&& removed is None ==> *changed == node
            &&& removed is Some ==> changed.structural_hash@ == changed.digest(structural_key)
            &&& forall|
                store: spec_fn(StructuralHash) -> HamtNode<K, V>,
                route: spec_fn(Seq<u8>) -> Seq<u8>,
            | #[trigger]
                sound(load, node, store, route, structural_key, 0) && along(hashes, route) && route(
                    key,
                ) == path ==> taken_out(node, *changed, store, route, structural_key, key)
        },
    }
}

/// The root for what remains of a trie.
fn finalize_remove_root<K, V, KeyHash>(
    structural_key: &[u8],
    outcome: RemoveOutcome<K, V>,
    key_hash: &mut KeyHash,
) -> (root: Arc<HamtNode<K, V>>) where
    K: HamtCodec,
    V: HamtCodec,
    KeyHash: FnMut(&K) -> StructuralHash,

    requires
        routing_total::<K, KeyHash>(*old(key_hash)),
        outcome matches RemoveOutcome::Leaf(k, v) ==> k.encodable() && v.encodable(),
    ensures
        *final(key_hash) == *old(key_hash),
        outcome matches RemoveOutcome::Node(rest) ==> *root == *rest,
        outcome !is Node ==> {
            &&& root.shape()
            &&& root.structural_hash@ == root.digest(structural_key@)
            &&& root.children@.len() == 0
            &&& forall|
                store: spec_fn(StructuralHash) -> HamtNode<K, V>,
                route: spec_fn(Seq<u8>) -> Seq<u8>,
            |
                along(hashes_of::<K, KeyHash>(*old(key_hash)), route) ==> #[trigger] canonical(
                    *root,
                    store,
                    route,
                    structural_key@,
                    0,
                )
            &&& forall|
                store: spec_fn(StructuralHash) -> HamtNode<K, V>,
                k: Seq<u8>,
                v: Seq<u8>,
            | #[trigger]
                holds(*root, store, k, v, 0) <==> left(outcome, store, k, v, 0)
        },
{
    proof {
        rank_zero(32);
        assert(0u32 & 0u32 == 0) by (bit_vector);
    }
    match outcome {
        RemoveOutcome::Empty => {
            let root: Arc<HamtNode<K, V>> = rebuild_node(
                structural_key,
                0,
                0,
                Vec::new(),
                Vec::new(),
            );
            proof {
                assert forall|
                    store: spec_fn(StructuralHash) -> HamtNode<K, V>,
                    route: spec_fn(Seq<u8>) -> Seq<u8>,
                | #[trigger] canonical(*root, store, route, structural_key@, 0) by {
                    assert forall|t: int| 0 <= t < 32 implies #[trigger] slot_canonical(
                        *root,
                        store,
                        route,
                        structural_key@,
                        0,
                        t,
                    ) by {
                        slot_updates(0, t, t);
                    }
                    canonical_from_slots(*root, store, route, structural_key@, 0);
                }
                assert forall|
                    store: spec_fn(StructuralHash) -> HamtNode<K, V>,
                    k: Seq<u8>,
                    v: Seq<u8>,
                | !#[trigger] holds(*root, store, k, v, 0) by {
                    if holds(*root, store, k, v, 0) {
                        let t = node_in_slot(*root, store, k, v, 0);
                        slot_updates(0, t, t);
                    }
                }
            }
            root
        },
        RemoveOutcome::Leaf(leaf_key, leaf_value) => {
            let hash: StructuralHash = key_hash(&leaf_key);
            let root_slot: usize = bucket_index(&hash, 0);
            let ghost entry = (leaf_key, leaf_value);
            let ghost s = root_slot as int;
            let mut leaves: Vec<(K, V)> = Vec::new();
            proof {
                assert(!slot_set(0, s)) by {
                    slot_updates(0, s, s);
                }
                inserted_at(0, s, leaves@, entry);
                disjoint_updates(0, 0, s);
                assert(hashes_of::<K, KeyHash>(*old(key_hash))(leaf_key.encoding(), hash));
                assert(leaves@.insert(0, entry) =~= seq![entry]);
            }
            leaves.push((leaf_key, leaf_value));
            let root: Arc<HamtNode<K, V>> = rebuild_node(
                structural_key,
                0u32 | (1u32 << (root_slot as u32)),
                0,
                leaves,
                Vec::new(),
            );
            proof {
                assert(root.leaf(s) == entry);
                assert forall|
                    store: spec_fn(StructuralHash) -> HamtNode<K, V>,
                    route: spec_fn(Seq<u8>) -> Seq<u8>,
                | along(hashes_of::<K, KeyHash>(*old(key_hash)), route) implies #[trigger] canonical(
                    *root,
                    store,
                    route,
                    structural_key@,
                    0,
                ) by {
                    assert(hashes_of::<K, KeyHash>(*old(key_hash))(leaf_key.encoding(), hash));
                    assert forall|t: int| 0 <= t < 32 implies #[trigger] slot_canonical(
                        *root,
                        store,
                        route,
                        structural_key@,
                        0,
                        t,
                    ) by {
                        slot_updates(0, t, t);
                        slot_updates(0, s, t);
                    }
                    canonical_from_slots(*root, store, route, structural_key@, 0);
                }
                assert forall|
                    store: spec_fn(StructuralHash) -> HamtNode<K, V>,
                    k: Seq<u8>,
                    v: Seq<u8>,
                | #[trigger] holds(*root, store, k, v, 0) <==> left(outcome, store, k, v, 0) by {
                    if holds(*root, store, k, v, 0) {
                        let t = node_in_slot(*root, store, k, v, 0);
                        slot_updates(0, t, t);
                        slot_updates(0, s, t);
                    }
                    if left(outcome, store, k, v, 0) {
                        slot_in_node(*root, store, k, v, 0, s);
                    }
                }
            }
            root
        },
        RemoveOutcome::Node(root) => root,
    }
}

/// Removes a key from a trie along the path that its routing hash gives.
pub(crate) fn remove_along<K, V, KeyHash, F, E>(
    node: &Arc<HamtNode<K, V>>,
    structural_key: &[u8],
    key: &K,
    path_hash: &StructuralHash,
    key_hash: &mut KeyHash,
    resolver: &mut F,
) -> (result: Result<(Arc<HamtNode<K, V>>, Option<V>), HamtMutateError<E>>) where
    K: HamtCodec + Clone,
    V: HamtCodec + Clone,
    KeyHash: FnMut(&K) -> StructuralHash,
    F: FnMut(&StructuralHash) -> Result<Arc<HamtNode<K, V>>, E>,

    requires
        resolver_total::<K, V, E, F>(*old(resolver)),
        routing_total::<K, KeyHash>(*old(key_hash)),
        exists|store: spec_fn(StructuralHash) -> HamtNode<K, V>| #[trigger]
            readable(loader::<K, V, E, F>(*old(resolver)), store, **node, 52),
        key.encodable(),
        clone_keeps::<K>(),
        clone_keeps::<V>(),
    ensures
        *final(key_hash) == *old(key_hash),
        *final(resolver) == *old(resolver),
        remove_outcome::<K, V, F, E>(
            hashes_of::<K, KeyHash>(*old(key_hash)),
            *old(resolver),
            **node,
            structural_key@,
            path_hash@,
            key.encoding(),
            result,
        ),
{
    let tree: &HamtNode<K, V> = &**node;
    let ghost load = loader::<K, V, E, F>(*resolver);
    proof {
        let store = choose|store: spec_fn(StructuralHash) -> HamtNode<K, V>| #[trigger]
            readable(load, store, *tree, 52);
        assert(readable(load, store, *tree, (52 - 0usize) as nat));
    }
    let step: Result<(RemoveOutcome<K, V>, Option<V>), HamtMutateError<E>> = remove_node_with_ctx(
        node,
        structural_key,
        key,
        path_hash,
        0,
        resolver,
    );
    let (outcome, removed) = match step {
        Ok(pair) => pair,
        Err(error) => {
            return Err(error);
        },
    };
    let root: Arc<HamtNode<K, V>> = finalize_remove_root(structural_key, outcome, key_hash);
    proof {
        assert forall|store: spec_fn(StructuralHash) -> HamtNode<K, V>| #[trigger]
            readable(load, store, *tree, 52) implies readable(load, store, *root, 52) by {
            assert(readable(load, store, *tree, (52 - 0usize) as nat));
        }
        assert forall|
            store: spec_fn(StructuralHash) -> HamtNode<K, V>,
            route: spec_fn(Seq<u8>) -> Seq<u8>,
        | #[trigger]
            sound(load, *tree, store, route, structural_key@, 0) && along(
                hashes_of::<K, KeyHash>(*key_hash),
                route,
            ) && route(key.encoding()) == path_hash@ implies taken_out(
            *tree,
            *root,
            store,
            route,
            structural_key@,
            key.encoding(),
        ) by {
            assert forall|k: Seq<u8>, v: Seq<u8>| #[trigger]
                holds(*root, store, k, v, 0) <==> holds(*tree, store, k, v, 0) && k
                    != key.encoding() by {
                assert(left(outcome, store, k, v, 0) <==> holds(*tree, store, k, v, 0) && k
                    != key.encoding());
            }
        }
    }
    Ok((root, removed))
}

/// Removes a key from a trie using a caller-provided routing hash for every
/// key involved in the mutation.
///
/// Collapses any subtree that drops to a single leaf back into its parent's
/// `datamap`, cascading as needed, so the resulting tree's `structural_hash`
/// always matches what `build_hamt_with_key_hash` would have produced from the
/// same final key set when using the same routing function.
///
/// Returns the new root and the removed value, if `key` was present.
///
/// # Errors
/// Returns `HamtMutateError::Resolve` if `resolver` fails to load a lazy child
/// on the path to `key`, or `HamtMutateError::MaxDepthExceeded` if the path is
/// deeper than routing hashes reach.
pub fn remove_with_key_hash<K, V, KeyHash, F, E>(
    node: &Arc<HamtNode<K, V>>,
    structural_key: &[u8],
    key: &K,
    mut key_hash: KeyHash,
    resolver: &mut F,
) -> (result: Result<(Arc<HamtNode<K, V>>, Option<V>), HamtMutateError<E>>) where
    K: HamtCodec + Clone,
    V: HamtCodec + Clone,
    KeyHash: FnMut(&K) -> StructuralHash,
    F: FnMut(&StructuralHash) -> Result<Arc<HamtNode<K, V>>, E>,

    requires
        resolver_total::<K, V, E, F>(*old(resolver)),
        routing_total::<K, KeyHash>(key_hash),
        exists|store: spec_fn(StructuralHash) -> HamtNode<K, V>| #[trigger]
            readable(loader::<K, V, E, F>(*old(resolver)), store, **node, 52),
        key.encodable(),
        clone_keeps::<K>(),
        clone_keeps::<V>(),
    ensures
        *final(resolver) == *old(resolver),
        exists|path: StructuralHash|
            {
                &&& #[trigger] call_ensures(key_hash, (key,), path)
                &&& remove_outcome::<K, V, F, E>(
                    hashes_of::<K, KeyHash>(key_hash),
                    *old(resolver),
                    **node,
                    structural_key@,
                    path@,
                    key.encoding(),
                    result,
                )
            },
{
    let path_hash: StructuralHash = key_hash(key);
    remove_along(node, structural_key, key, &path_hash, &mut key_hash, resolver)
}

/// Removes a key from a trie by copying the path to it, without rebuilding the
/// whole tree.
///
/// Collapses any subtree that drops to a single leaf back into its parent's
/// `datamap`, cascading as needed, so the resulting tree's `structural_hash`
/// always matches what `build_hamt` would have produced from the same final
/// key set.
///
/// Returns the new root and the removed value, if `key` was present. This
/// helper is only correct for trees built with `build_hamt`.
///
/// # Errors
/// Returns `HamtMutateError::Resolve` if `resolver` fails to load a lazy child
/// on the path to `key`, or `HamtMutateError::MaxDepthExceeded` if the path is
/// deeper than routing hashes reach.
pub fn remove<K, V, F, E>(
    node: &Arc<HamtNode<K, V>>,
    structural_key: &[u8],
    key: &K,
    resolver: &mut F,
) -> (result: Result<(Arc<HamtNode<K, V>>, Option<V>), HamtMutateError<E>>) where
    K: HamtKey + Clone,
    V: HamtCodec + Clone,
    F: FnMut(&StructuralHash) -> Result<Arc<HamtNode<K, V>>, E>,

    requires
        resolver_total::<K, V, E, F>(*old(resolver)),
        exists|store: spec_fn(StructuralHash) -> HamtNode<K, V>| #[trigger]
            readable(loader::<K, V, E, F>(*old(resolver)), store, **node, 52),
        key.encodable(),
        clone_keeps::<K>(),
        clone_keeps::<V>(),
    ensures
        *final(resolver) == *old(resolver),
        remove_outcome::<K, V, F, E>(
            default_hashes::<K>(structural_key@),
            *old(resolver),
            **node,
            structural_key@,
            default_route::<K>(structural_key@)(key.encoding()),
            key.encoding(),
            result,
        ),
{
    let key_hash = |key: &K| -> (hash: StructuralHash)
        requires
            key.encodable(),
        ensures
            hash@ == default_route::<K>(structural_key@)(key.encoding()),
        { key_path_hash(structural_key, key) };
    let ghost hashes = hashes_of::<K, _>(key_hash);
    let ghost wider = default_hashes::<K>(structural_key@);
    proof {
        assert forall|k: Seq<u8>, h: StructuralHash| #[trigger] hashes(k, h) implies wider(
            k,
            h,
        ) by {}
        assert forall|route: spec_fn(Seq<u8>) -> Seq<u8>| along(
            wider,
            route,
        ) implies #[trigger] along(hashes, route) by {
            assert forall|k: Seq<u8>, h: StructuralHash| #[trigger] hashes(k, h) implies h@
                == route(k) by {
                assert(wider(k, h));
            }
        }
    }
    remove_with_key_hash(node, structural_key, key, key_hash, resolver)
}

} // verus!
