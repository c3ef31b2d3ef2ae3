//! Looking keys up and walking over the entries of a trie.

use std::sync::Arc;
use vstd::prelude::*;
use super::bitmap::{has_slot, map_index, rank, rank_monotone, slot_set};
use super::codec::{HamtCodec, HamtKey};
use super::hash::StructuralHash;
use super::node::{
    bucket, bucket_index, default_route, key_path_hash, loader, lookup, node_at, readable, resident,
    resolver_total, HamtNode, NodeRef, HAMT_MAX_DEPTH,
};
use super::walk::child_loads;

verus! {

/// The node and every loaded node below it, down to some level, has the right
/// shape.
pub open spec fn walkable<K: HamtCodec, V: HamtCodec>(node: HamtNode<K, V>, levels: nat) -> bool
    decreases levels,
{
    &&& node.shape()
    &&& levels > 0 ==> forall|i: int|
        0 <= i < node.children@.len() ==> ((#[trigger] node.children@[i]) matches NodeRef::Resolved(
            child,
        ) ==> walkable(*child, (levels - 1) as nat))
}

/// The clone of a value has the encoding of the value.
pub open spec fn clone_keeps<T: HamtCodec + Clone>() -> bool {
    forall|a: T, b: T| #[trigger]
        cloned(a, b) ==> a.encoding() == b.encoding() && a.encodable() == b.encodable()
}

/// A route leads to a lazy child with the hash, and every lazy child above it is
/// loaded.
pub open spec fn path_loads<K: HamtCodec, V: HamtCodec>(
    load: spec_fn(StructuralHash, HamtNode<K, V>) -> bool,
    node: HamtNode<K, V>,
    store: spec_fn(StructuralHash) -> HamtNode<K, V>,
    path: Seq<u8>,
    depth: nat,
    hash: StructuralHash,
) -> bool
    decreases 52 - depth,
{
    let child = node.child(bucket(path, depth));
    &&& depth < 52
    &&& slot_set(node.nodemap, bucket(path, depth))
    &&& child == NodeRef::<K, V>::Lazy(hash) || child_loads(load, store, child) && path_loads(
        load,
        node_at(child, store),
        store,
        path,
        depth + 1,
        hash,
    )
}

/// Every lazy child on a route is loaded.
pub open spec fn path_loaded<K: HamtCodec, V: HamtCodec>(
    load: spec_fn(StructuralHash, HamtNode<K, V>) -> bool,
    node: HamtNode<K, V>,
    store: spec_fn(StructuralHash) -> HamtNode<K, V>,
    path: Seq<u8>,
    depth: nat,
) -> bool
    decreases 52 - depth,
{
    let child = node.child(bucket(path, depth));
    depth < 52 && !slot_set(node.datamap, bucket(path, depth)) && slot_set(
        node.nodemap,
        bucket(path, depth),
    ) ==> child_loads(load, store, child) && path_loaded(
        load,
        node_at(child, store),
        store,
        path,
        depth + 1,
    )
}

/// The failure of a resolver on some node of the route.
pub open spec fn path_fails<K: HamtCodec, V: HamtCodec, E, F>(
    f: F,
    node: HamtNode<K, V>,
    path: Seq<u8>,
    depth: nat,
    error: E,
) -> bool where F: FnMut(&StructuralHash) -> Result<Arc<HamtNode<K, V>>, E> {
    exists|hash: StructuralHash|
        {
            &&& #[trigger] call_ensures(f, (&hash,), Err::<Arc<HamtNode<K, V>>, E>(error))
            &&& forall|store: spec_fn(StructuralHash) -> HamtNode<K, V>|
                #[trigger] readable(loader::<K, V, E, F>(f), store, node, (52 - depth) as nat)
                    ==> path_loads(loader::<K, V, E, F>(f), node, store, path, depth, hash)
        }
}

/// What occupies a single slot: a leaf entry, a child node, or nothing.
pub(crate) enum Slot<'a, K, V> {
    Leaf(&'a (K, V)),
    Child(&'a NodeRef<K, V>),
    Empty,
}

/// A node behind a reference has the right shape, and so on below it.
pub proof fn readable_child<K: HamtCodec, V: HamtCodec>(
    load: spec_fn(StructuralHash, HamtNode<K, V>) -> bool,
    store: spec_fn(StructuralHash) -> HamtNode<K, V>,
    node: HamtNode<K, V>,
    levels: nat,
    slot: int,
)
    requires
        readable(load, store, node, levels),
        levels > 0,
        0 <= slot < 32,
        slot_set(node.nodemap, slot),
    ensures
        0 <= rank(node.nodemap, slot) < node.children@.len(),
        readable(load, store, node_at(node.child(slot), store), (levels - 1) as nat),
        node.child(slot) matches NodeRef::Lazy(h) ==> forall|n: HamtNode<K, V>| #[trigger]
            load(h, n) ==> n == store(h),
{
    rank_monotone(node.nodemap, slot + 1, 32);
    assert(node.children@[rank(node.nodemap, slot) as int] == node.child(slot));
}

/// The leaf of a slot is in the array of leaves.
pub proof fn leaf_in_range<K: HamtCodec, V: HamtCodec>(node: HamtNode<K, V>, slot: int)
    requires
        node.shape(),
        0 <= slot < 32,
        slot_set(node.datamap, slot),
    ensures
        0 <= rank(node.datamap, slot) < node.leaves@.len(),
        node.leaf(slot).0.encodable(),
        node.leaf(slot).1.encodable(),
{
    rank_monotone(node.datamap, slot + 1, 32);
}

impl<K: HamtCodec, V: HamtCodec> HamtNode<K, V> {
    /// Resolves which slot a routing hash takes at a depth and returns what
    /// occupies it, if anything.
    ///
    /// This is the single shared descent step: it computes the slot, tests it
    /// against both bitmaps, and resolves the compressed index.
    pub(crate) fn slot_at(&self, path_hash: &StructuralHash, depth: usize) -> (found: Slot<'_, K, V>)
        requires
            self.shape(),
            depth < HAMT_MAX_DEPTH,
        ensures
            match found {
                Slot::Leaf(entry) => {
                    &&& slot_set(self.datamap, bucket(path_hash@, depth as nat))
                    &&& *entry == self.leaf(bucket(path_hash@, depth as nat))
                    &&& entry.0.encodable()
                    &&& entry.1.encodable()
                },
                Slot::Child(child) => {
                    &&& !slot_set(self.datamap, bucket(path_hash@, depth as nat))
                    &&& slot_set(self.nodemap, bucket(path_hash@, depth as nat))
                    &&& *child == self.child(bucket(path_hash@, depth as nat))
                    &&& 0 <= rank(self.nodemap, bucket(path_hash@, depth as nat))
                        < self.children@.len()
                },
                Slot::Empty => {
                    &&& !slot_set(self.datamap, bucket(path_hash@, depth as nat))
                    &&& !slot_set(self.nodemap, bucket(path_hash@, depth as nat))
                },
            },
    {
        let slot: usize = bucket_index(path_hash, depth);
        if has_slot(self.datamap, slot) {
            proof {
                leaf_in_range(*self, slot as int);
            }
            Slot::Leaf(&self.leaves[map_index(self.datamap, slot)])
        } else if has_slot(self.nodemap, slot) {
            proof {
                rank_monotone(self.nodemap, slot + 1, 32);
            }
            Slot::Child(&self.children[map_index(self.nodemap, slot)])
        } else {
            Slot::Empty
        }
    }

    fn get_by_path_hash_inner(
        &self,
        key: &K,
        path_hash: &StructuralHash,
        depth: usize,
    ) -> (found: Option<&V>)
        requires
            depth <= 52,
            walkable(*self, (52 - depth) as nat),
            key.encodable(),
        ensures
            match found {
                Some(value) => resident(*self, path_hash@, key.encoding(), depth as nat) == Some(
                    *value,
                ),
                None => resident(*self, path_hash@, key.encoding(), depth as nat) is None,
            },
        decreases 52 - depth,
    {
        if depth >= HAMT_MAX_DEPTH {
            return None;
        }
        match self.slot_at(path_hash, depth) {
            Slot::Leaf(entry) => if entry.0.same_encoding(key) {
                Some(&entry.1)
            } else {
                None
            },
            Slot::Child(child) => match child {
                NodeRef::Resolved(child) => child.get_by_path_hash_inner(key, path_hash, depth + 1),
                NodeRef::Lazy(_) => None,
            },
            Slot::Empty => None,
        }
    }

    /// Looks up a key using a caller-provided routing hash.
    ///
    /// This is the most general lookup entry point. Use it when the caller
    /// already knows the exact path hash that was used to build or mutate the
    /// tree.
    #[must_use]
    pub fn get_by_path_hash(&self, key: &K, path_hash: &StructuralHash) -> (found: Option<&V>)
        requires
            walkable(*self, 52),
            key.encodable(),
        ensures
            match found {
                Some(value) => resident(*self, path_hash@, key.encoding(), 0) == Some(*value),
                None => resident(*self, path_hash@, key.encoding(), 0) is None,
            },
    {
        self.get_by_path_hash_inner(key, path_hash, 0)
    }

    /// Looks up a key using a caller-provided path-hash function.
    ///
    /// This matches trees that were built with a custom routing function
    /// instead of the default keyed structural hash.
    #[must_use]
    pub fn get_with_key_hash<F: FnMut(&K) -> StructuralHash>(&self, key: &K, mut key_hash: F) -> (found:
        Option<&V>)
        requires
            walkable(*self, 52),
            key.encodable(),
            call_requires(key_hash, (key,)),
        ensures
            exists|path: StructuralHash| #[trigger]
                call_ensures(key_hash, (key,), path) && match found {
                    Some(value) => resident(*self, path@, key.encoding(), 0) == Some(*value),
                    None => resident(*self, path@, key.encoding(), 0) is None,
                },
    {
        let path_hash: StructuralHash = key_hash(key);
        self.get_by_path_hash(key, &path_hash)
    }

    fn search_by_path_hash_inner<F, E>(
        &self,
        key: &K,
        path_hash: &StructuralHash,
        depth: usize,
        resolver: &mut F,
    ) -> (found: Result<Option<V>, E>) where
        V: Clone,
        F: FnMut(&StructuralHash) -> Result<Arc<HamtNode<K, V>>, E>,

        requires
            depth <= 52,
            resolver_total::<K, V, E, F>(*old(resolver)),
            exists|store: spec_fn(StructuralHash) -> HamtNode<K, V>| #[trigger]
                readable(
                    loader::<K, V, E, F>(*old(resolver)),
                    store,
                    *self,
                    (52 - depth) as nat,
                ),
            key.encodable(),
            clone_keeps::<V>(),
        ensures
            *final(resolver) == *old(resolver),
            match found {
                Ok(value) => forall|store: spec_fn(StructuralHash) -> HamtNode<K, V>| #[trigger]
                    readable(
                        loader::<K, V, E, F>(*old(resolver)),
                        store,
                        *self,
                        (52 - depth) as nat,
                    ) ==> lookup(*self, store, path_hash@, key.encoding(), depth as nat)
                        == value_encoding(value) && path_loaded(
                        loader::<K, V, E, F>(*old(resolver)),
                        *self,
                        store,
                        path_hash@,
                        depth as nat,
                    ),
                Err(error) => path_fails::<K, V, E, F>(
                    *old(resolver),
                    *self,
                    path_hash@,
                    depth as nat,
                    error,
                ),
            },
        decreases 52 - depth,
    {
        if depth >= HAMT_MAX_DEPTH {
            return Ok(None);
        }
        let ghost load = loader::<K, V, E, F>(*resolver);
        let ghost slot = bucket(path_hash@, depth as nat);
        let ghost levels = (52 - depth) as nat;
        let ghost some_store = choose|store: spec_fn(StructuralHash) -> HamtNode<K, V>| #[trigger]
            readable(load, store, *self, levels);
        let below: Arc<HamtNode<K, V>> = match self.slot_at(path_hash, depth) {
            Slot::Leaf(entry) => {
                return if entry.0.same_encoding(key) {
                    let value: V = entry.1.clone();
                    proof {
                        assert(cloned(entry.1, value));
                    }
                    Ok(Some(value))
                } else {
                    Ok(None)
                };
            },
            Slot::Child(child) => {
                match child {
                    NodeRef::Resolved(node) => node.clone(),
                    NodeRef::Lazy(hash) => match resolver(hash) {
                        Ok(node) => {
                            proof {
                                assert(load(*hash, *node));
                            }
                            node
                        },
                        Err(error) => {
                            return Err(error);
                        },
                    },
                }
            },
            Slot::Empty => {
                return Ok(None);
            },
        };
        proof {
            assert forall|store: spec_fn(StructuralHash) -> HamtNode<K, V>| #[trigger]
                readable(load, store, *self, levels) implies readable(
                load,
                store,
                *below,
                (levels - 1) as nat,
            ) && *below == node_at(self.child(slot), store) by {
                readable_child(load, store, *self, levels, slot);
            }
            assert(readable(load, some_store, *below, (levels - 1) as nat));
        }
        below.search_by_path_hash_inner(key, path_hash, depth + 1, resolver)
    }
}

impl<K: HamtCodec, V: HamtCodec + Clone> HamtNode<K, V> {
    /// Looks up a key using a caller-provided routing hash.
    ///
    /// Lazy children are resolved through `resolver` as needed. The returned
    /// value is cloned so the lookup does not need to hold references into
    /// transient resolved child allocations.
    ///
    /// # Errors
    /// Returns the error from `resolver` if a lazy child cannot be loaded.
    pub fn search_by_path_hash<F, E>(
        &self,
        key: &K,
        path_hash: &StructuralHash,
        resolver: &mut F,
    ) -> (found: Result<Option<V>, E>) where
        F: FnMut(&StructuralHash) -> Result<Arc<HamtNode<K, V>>, E>,

        requires
            resolver_total::<K, V, E, F>(*old(resolver)),
            exists|store: spec_fn(StructuralHash) -> HamtNode<K, V>| #[trigger]
                readable(loader::<K, V, E, F>(*old(resolver)), store, *self, 52),
            key.encodable(),
            clone_keeps::<V>(),
        ensures
            *final(resolver) == *old(resolver),
            search_outcome::<K, V, E, F>(
                *old(resolver),
                *self,
                path_hash@,
                key.encoding(),
                found,
            ),
    {
        let ghost load = loader::<K, V, E, F>(*resolver);
        let ghost levels = (52 - 0usize) as nat;
        proof {
            let store = choose|store: spec_fn(StructuralHash) -> HamtNode<K, V>| #[trigger]
                readable(load, store, *self, 52);
            assert(readable(load, store, *self, levels));
            assert forall|store: spec_fn(StructuralHash) -> HamtNode<K, V>| #[trigger]
                readable(load, store, *self, 52) implies readable(load, store, *self, levels) by {}
        }
        self.search_by_path_hash_inner(key, path_hash, 0, resolver)
    }

    /// Looks up a key using a caller-provided path-hash function.
    ///
    /// This is the search equivalent of `get_with_key_hash`.
    ///
    /// # Errors
    /// Returns the error from `resolver` if a lazy child cannot be loaded.
    pub fn search_with_key_hash<KeyHash, F, E>(
        &self,
        key: &K,
        mut key_hash: KeyHash,
        resolver: &mut F,
    ) -> (found: Result<Option<V>, E>) where
        KeyHash: FnMut(&K) -> StructuralHash,
        F: FnMut(&StructuralHash) -> Result<Arc<HamtNode<K, V>>, E>,

        requires
            resolver_total::<K, V, E, F>(*old(resolver)),
            exists|store: spec_fn(StructuralHash) -> HamtNode<K, V>| #[trigger]
                readable(loader::<K, V, E, F>(*old(resolver)), store, *self, 52),
            key.encodable(),
            clone_keeps::<V>(),
            call_requires(key_hash, (key,)),
        ensures
            *final(resolver) == *old(resolver),
            exists|path: StructuralHash| #[trigger]
                call_ensures(key_hash, (key,), path) && search_outcome::<K, V, E, F>(
                    *old(resolver),
                    *self,
                    path@,
                    key.encoding(),
                    found,
                ),
    {
        let path_hash: StructuralHash = key_hash(key);
        self.search_by_path_hash(key, &path_hash, resolver)
    }
}

impl<K: HamtKey, V: HamtCodec> HamtNode<K, V> {
    /// Looks up a key in a fully materialized trie.
    ///
    /// This is the cheapest read path and should be used when the tree is
    /// already fully resolved in memory. The key is hashed with the same keyed
    /// structural hash that `build_hamt` routes by.
    #[must_use]
    pub fn get(&self, structural_key: &[u8], key: &K) -> (found: Option<&V>)
        requires
            walkable(*self, 52),
            key.encodable(),
        ensures
            ({
                let path = default_route::<K>(structural_key@)(key.encoding());
                match found {
                    Some(value) => resident(*self, path, key.encoding(), 0) == Some(*value),
                    None => resident(*self, path, key.encoding(), 0) is None,
                }
            }),
    {
        let path_hash: StructuralHash = key_path_hash(structural_key, key);
        self.get_by_path_hash(key, &path_hash)
    }

    /// Looks up a key in a trie that may contain lazy children, which are
    /// resolved through `resolver` as needed.
    ///
    /// # Errors
    /// Returns the error from `resolver` if a lazy child cannot be loaded.
    pub fn search<F, E>(&self, structural_key: &[u8], key: &K, resolver: &mut F) -> (found: Result<
        Option<V>,
        E,
    >) where V: Clone, F: FnMut(&StructuralHash) -> Result<Arc<HamtNode<K, V>>, E>
        requires
            resolver_total::<K, V, E, F>(*old(resolver)),
            exists|store: spec_fn(StructuralHash) -> HamtNode<K, V>| #[trigger]
                readable(loader::<K, V, E, F>(*old(resolver)), store, *self, 52),
            key.encodable(),
            clone_keeps::<V>(),
        ensures
            *final(resolver) == *old(resolver),
            search_outcome::<K, V, E, F>(
                *old(resolver),
                *self,
                default_route::<K>(structural_key@)(key.encoding()),
                key.encoding(),
                found,
            ),
    {
        let path_hash: StructuralHash = key_path_hash(structural_key, key);
        self.search_by_path_hash(key, &path_hash, resolver)
    }
}

/// What a search along a path returns: what a lookup finds in every store that
/// agrees with the resolver, once every node on the path was loaded, or the error of
/// loading the first one that was not.
pub open spec fn search_outcome<K: HamtCodec, V: HamtCodec, E, F>(
    f: F,
    node: HamtNode<K, V>,
    path: Seq<u8>,
    key: Seq<u8>,
    found: Result<Option<V>, E>,
) -> bool where F: FnMut(&StructuralHash) -> Result<Arc<HamtNode<K, V>>, E> {
    match found {
        Ok(value) => forall|store: spec_fn(StructuralHash) -> HamtNode<K, V>| #[trigger]
            readable(loader::<K, V, E, F>(f), store, node, 52) ==> {
                &&& lookup(node, store, path, key, 0) == value_encoding(value)
                &&& path_loaded(loader::<K, V, E, F>(f), node, store, path, 0)
            },
        Err(error) => path_fails::<K, V, E, F>(f, node, path, 0, error),
    }
}

/// The encoding of a value, if there is one.
pub open spec fn value_encoding<V: HamtCodec>(value: Option<V>) -> Option<Seq<u8>> {
    match value {
        Some(value) => Some(value.encoding()),
        None => None,
    }
}

} // verus!
