//! Trie nodes, what they hold, and how keys are routed through them.

use std::sync::Arc;
use vstd::prelude::*;
use vstd::arithmetic::power2::{lemma2_to64, lemma_pow2_pos, pow2};
use vstd::bits::lemma_u32_shr_is_div;
use super::bitmap::{
    disjoint_slots, rank, rank_zero_only, same_slots, select_facts, select_slot, slot_set,
};
use super::codec::{HamtCodec, HamtKey};
use super::hash::{keyed_hash, structural_hash_of, StructuralHash};
use crate::bytes::{le_bytes, push_le};

verus! {

/// Bits of a routing hash that one level consumes.
pub const HAMT_BRANCH_BITS: usize = 5;

/// Slots of a node.
pub const HAMT_BRANCH_FACTOR: usize = 32;

/// Levels that a routing hash can tell apart.
pub const HAMT_MAX_DEPTH: usize = 52;

/// A reference to a child node in the trie.
#[derive(Clone, Debug)]
pub enum NodeRef<K, V> {
    /// A fully loaded child node.
    Resolved(Arc<HamtNode<K, V>>),
    /// A lazy-loaded child node that hasn't been fetched from storage yet.
    Lazy(StructuralHash),
}

/// A node in the 32-way compressed hash array mapped prefix trie.
#[derive(Clone, Debug)]
pub struct HamtNode<K, V> {
    /// Bitmap marking which of the 32 slots contain leaf data.
    pub datamap: u32,
    /// Bitmap marking which of the 32 slots contain child internal nodes.
    pub nodemap: u32,
    /// The inline array of leaf key-value pairs. Length matches the marks of `datamap`.
    pub leaves: Vec<(K, V)>,
    /// The array of child nodes. Length matches the marks of `nodemap`.
    pub children: Vec<NodeRef<K, V>>,
    /// Structural hash for constant-time subtree equivalence checks.
    pub structural_hash: StructuralHash,
}

/// The hash that a reference carries.
pub open spec fn ref_hash<K, V>(child: NodeRef<K, V>) -> Seq<u8> {
    match child {
        NodeRef::Resolved(node) => node.structural_hash@,
        NodeRef::Lazy(hash) => hash@,
    }
}

/// The hashes of a list of references.
pub open spec fn ref_hashes<K, V>(children: Seq<NodeRef<K, V>>) -> Seq<Seq<u8>> {
    Seq::new(children.len(), |i: int| ref_hash(children[i]))
}

/// The node behind a reference, where `store` holds the nodes by their hash.
pub open spec fn node_at<K, V>(
    child: NodeRef<K, V>,
    store: spec_fn(StructuralHash) -> HamtNode<K, V>,
) -> HamtNode<K, V> {
    match child {
        NodeRef::Resolved(node) => *node,
        NodeRef::Lazy(hash) => store(hash),
    }
}

/// The node that a resolver may return for a hash.
pub open spec fn loader<K, V, E, F>(f: F) -> spec_fn(StructuralHash, HamtNode<K, V>) -> bool where
    F: FnMut(&StructuralHash) -> Result<Arc<HamtNode<K, V>>, E>,
 {
    |h: StructuralHash, n: HamtNode<K, V>|
        exists|a: Arc<HamtNode<K, V>>| #[trigger]
            call_ensures(f, (&h,), Ok::<Arc<HamtNode<K, V>>, E>(a)) && *a == n
}

/// A resolver can be asked for any hash.
pub open spec fn resolver_total<K, V, E, F>(f: F) -> bool where
    F: FnMut(&StructuralHash) -> Result<Arc<HamtNode<K, V>>, E>,
 {
    forall|h: &StructuralHash| #[trigger] call_requires(f, (h,))
}

/// The bytes of leaf entries: each key followed by its value.
pub open spec fn leaf_bytes<K: HamtCodec, V: HamtCodec>(leaves: Seq<(K, V)>) -> Seq<u8>
    decreases leaves.len(),
{
    if leaves.len() == 0 {
        Seq::empty()
    } else {
        leaf_bytes(leaves.drop_last()) + leaves.last().0.encoding() + leaves.last().1.encoding()
    }
}

/// Hashes, one after the other.
pub open spec fn hash_bytes(hashes: Seq<Seq<u8>>) -> Seq<u8>
    decreases hashes.len(),
{
    if hashes.len() == 0 {
        Seq::empty()
    } else {
        hash_bytes(hashes.drop_last()) + hashes.last()
    }
}

/// Wire version of the persisted-node layout: 32-byte structural hashes,
/// inline leaves, then child hashes in nodemap order.
pub const HAMT_WIRE_VERSION: u8 = 0x02;

/// The canonical bytes of a node.
pub open spec fn encoded_node<K: HamtCodec, V: HamtCodec>(
    datamap: u32,
    nodemap: u32,
    leaves: Seq<(K, V)>,
    hashes: Seq<Seq<u8>>,
) -> Seq<u8> {
    seq![HAMT_WIRE_VERSION] + le_bytes(datamap as nat, 4) + le_bytes(nodemap as nat, 4) + le_bytes(
        leaves.len(),
        4,
    ) + le_bytes(hashes.len(), 4) + leaf_bytes(leaves) + hash_bytes(hashes)
}

/// The bytes that set node hashes apart from routing hashes.
pub open spec fn node_domain() -> Seq<u8> {
    seq![0x68u8, 0x61u8, 0x6du8, 0x74u8, 0x2fu8, 0x6eu8, 0x31u8]
}

/// The structural hash of a node's canonical bytes.
pub open spec fn node_digest<K: HamtCodec, V: HamtCodec>(
    structural_key: Seq<u8>,
    datamap: u32,
    nodemap: u32,
    leaves: Seq<(K, V)>,
    hashes: Seq<Seq<u8>>,
) -> Seq<u8> {
    keyed_hash(structural_key, node_domain() + encoded_node(datamap, nodemap, leaves, hashes))
}

/// Every key and value is short enough to be encoded.
pub open spec fn leaves_encodable<K: HamtCodec, V: HamtCodec>(leaves: Seq<(K, V)>) -> bool {
    forall|i: int|
        0 <= i < leaves.len() ==> (#[trigger] leaves[i]).0.encodable() && leaves[i].1.encodable()
}

impl<K: HamtCodec, V: HamtCodec> HamtNode<K, V> {
    /// The leaf in a slot.
    pub open spec fn leaf(&self, slot: int) -> (K, V) {
        self.leaves@[rank(self.datamap, slot) as int]
    }

    /// The child in a slot.
    pub open spec fn child(&self, slot: int) -> NodeRef<K, V> {
        self.children@[rank(self.nodemap, slot) as int]
    }

    /// The bitmaps are disjoint and match the arrays, and the leaves can be encoded.
    pub open spec fn shape(&self) -> bool {
        &&& self.datamap & self.nodemap == 0
        &&& self.leaves@.len() == rank(self.datamap, 32)
        &&& self.children@.len() == rank(self.nodemap, 32)
        &&& leaves_encodable(self.leaves@)
    }

    /// The structural hash that the node's contents give.
    pub open spec fn digest(&self, structural_key: Seq<u8>) -> Seq<u8> {
        node_digest(
            structural_key,
            self.datamap,
            self.nodemap,
            self.leaves@,
            ref_hashes(self.children@),
        )
    }
}

/// The node and everything below it, down to some level, has the right shape,
/// and whatever can be loaded for a lazy child is what the store holds.
pub open spec fn readable<K: HamtCodec, V: HamtCodec>(
    load: spec_fn(StructuralHash, HamtNode<K, V>) -> bool,
    store: spec_fn(StructuralHash) -> HamtNode<K, V>,
    node: HamtNode<K, V>,
    levels: nat,
) -> bool
    decreases levels,
{
    &&& node.shape()
    &&& levels > 0 ==> forall|i: int|
        0 <= i < node.children@.len() ==> {
            &&& (#[trigger] node.children@[i]) matches NodeRef::Lazy(h) ==> forall|
                n: HamtNode<K, V>,
            | #[trigger]
                load(h, n) ==> n == store(h)
            &&& readable(load, store, node_at(node.children@[i], store), (levels - 1) as nat)
        }
}

/// The slot that a routing hash takes at a depth: five bits, least significant
/// first, with zeros past the end of the hash.
pub open spec fn bucket(path: Seq<u8>, depth: nat) -> int {
    let offset = 5 * depth;
    let byte = (offset / 8) as int;
    let next = if byte + 1 < path.len() {
        path[byte + 1] as int
    } else {
        0
    };
    ((path[byte] as int + 256 * next) / pow2(offset % 8) as int) % 32
}

/// The slot that a routing hash takes at a depth.
pub fn bucket_index(hash: &StructuralHash, depth: usize) -> (slot: usize)
    requires
        depth < HAMT_MAX_DEPTH,
    ensures
        slot == bucket(hash@, depth as nat),
        slot < 32,
{
    let bit_offset: usize = depth * HAMT_BRANCH_BITS;
    let byte_index: usize = bit_offset / 8;
    let bit_shift: usize = bit_offset % 8;
    let next: u32 = if byte_index + 1 < 32 {
        hash[byte_index + 1] as u32
    } else {
        0
    };
    let word: u32 = hash[byte_index] as u32 + 256 * next;
    proof {
        lemma_u32_shr_is_div(word, bit_shift as u32);
        lemma_pow2_pos(bit_shift as nat);
    }
    ((word >> (bit_shift as u32)) % 32) as usize
}

/// What looking a key up along a path finds.
pub open spec fn lookup<K: HamtCodec, V: HamtCodec>(
    node: HamtNode<K, V>,
    store: spec_fn(StructuralHash) -> HamtNode<K, V>,
    path: Seq<u8>,
    key: Seq<u8>,
    depth: nat,
) -> Option<Seq<u8>>
    decreases 52 - depth,
{
    if depth >= 52 {
        None
    } else {
        let slot = bucket(path, depth);
        if slot_set(node.datamap, slot) {
            if node.leaf(slot).0.encoding() == key {
                Some(node.leaf(slot).1.encoding())
            } else {
                None
            }
        } else if slot_set(node.nodemap, slot) {
            lookup(node_at(node.child(slot), store), store, path, key, depth + 1)
        } else {
            None
        }
    }
}

/// What looking a key up finds without loading anything.
pub open spec fn resident<K: HamtCodec, V: HamtCodec>(
    node: HamtNode<K, V>,
    path: Seq<u8>,
    key: Seq<u8>,
    depth: nat,
) -> Option<V>
    decreases 52 - depth,
{
    if depth >= 52 {
        None
    } else {
        let slot = bucket(path, depth);
        if slot_set(node.datamap, slot) {
            if node.leaf(slot).0.encoding() == key {
                Some(node.leaf(slot).1)
            } else {
                None
            }
        } else if slot_set(node.nodemap, slot) {
            match node.child(slot) {
                NodeRef::Resolved(child) => resident(*child, path, key, depth + 1),
                NodeRef::Lazy(_) => None,
            }
        } else {
            None
        }
    }
}

/// The slot is one of a node's slots.
pub open spec fn is_slot(slot: int) -> bool {
    0 <= slot < 32
}

/// The node or something below it holds the key with the value.
pub open spec fn holds<K: HamtCodec, V: HamtCodec>(
    node: HamtNode<K, V>,
    store: spec_fn(StructuralHash) -> HamtNode<K, V>,
    key: Seq<u8>,
    value: Seq<u8>,
    depth: nat,
) -> bool
    decreases 52 - depth,
{
    depth < 52 && exists|slot: int| #[trigger]
        is_slot(slot) && if slot_set(node.datamap, slot) {
            node.leaf(slot).0.encoding() == key && node.leaf(slot).1.encoding() == value
        } else {
            slot_set(node.nodemap, slot) && holds(
                node_at(node.child(slot), store),
                store,
                key,
                value,
                depth + 1,
            )
        }
}

/// A slot holds the key with the value.
pub open spec fn slot_holds<K: HamtCodec, V: HamtCodec>(
    node: HamtNode<K, V>,
    store: spec_fn(StructuralHash) -> HamtNode<K, V>,
    key: Seq<u8>,
    value: Seq<u8>,
    depth: nat,
    slot: int,
) -> bool {
    if slot_set(node.datamap, slot) {
        node.leaf(slot).0.encoding() == key && node.leaf(slot).1.encoding() == value
    } else {
        slot_set(node.nodemap, slot) && holds(
            node_at(node.child(slot), store),
            store,
            key,
            value,
            depth + 1,
        )
    }
}

/// What a slot holds, its node holds.
pub proof fn slot_in_node<K: HamtCodec, V: HamtCodec>(
    node: HamtNode<K, V>,
    store: spec_fn(StructuralHash) -> HamtNode<K, V>,
    key: Seq<u8>,
    value: Seq<u8>,
    depth: nat,
    slot: int,
)
    requires
        depth < 52,
        0 <= slot < 32,
        slot_holds(node, store, key, value, depth, slot),
    ensures
        holds(node, store, key, value, depth),
{
    assert(is_slot(slot));
}

/// What a node holds, one of its slots holds.
pub proof fn node_in_slot<K: HamtCodec, V: HamtCodec>(
    node: HamtNode<K, V>,
    store: spec_fn(StructuralHash) -> HamtNode<K, V>,
    key: Seq<u8>,
    value: Seq<u8>,
    depth: nat,
) -> (slot: int)
    requires
        holds(node, store, key, value, depth),
    ensures
        depth < 52,
        0 <= slot < 32,
        slot_holds(node, store, key, value, depth, slot),
{
    choose|slot: int| #[trigger]
        is_slot(slot) && if slot_set(node.datamap, slot) {
            node.leaf(slot).0.encoding() == key && node.leaf(slot).1.encoding() == value
        } else {
            slot_set(node.nodemap, slot) && holds(
                node_at(node.child(slot), store),
                store,
                key,
                value,
                depth + 1,
            )
        }
}

/// A node that is worth being a child: with a single entry it would be a leaf
/// of its parent.
pub open spec fn dense<K, V>(node: HamtNode<K, V>) -> bool {
    node.nodemap != 0 || node.leaves@.len() >= 2
}

/// The node at a depth is the root of a canonical trie: every key stands where
/// its route leads, no child could be a leaf, and every hash is right.
pub open spec fn canonical<K: HamtCodec, V: HamtCodec>(
    node: HamtNode<K, V>,
    store: spec_fn(StructuralHash) -> HamtNode<K, V>,
    route: spec_fn(Seq<u8>) -> Seq<u8>,
    structural_key: Seq<u8>,
    depth: nat,
) -> bool
    decreases 52 - depth,
{
    &&& depth < 52
    &&& node.shape()
    &&& depth == 51 ==> node.nodemap == 0
    &&& node.structural_hash@ == node.digest(structural_key)
    &&& forall|slot: int| #[trigger]
        is_slot(slot) ==> {
            &&& slot_set(node.datamap, slot) ==> bucket(
                route(node.leaf(slot).0.encoding()),
                depth,
            ) == slot
            &&& slot_set(node.nodemap, slot) ==> {
                let child = node_at(node.child(slot), store);
                &&& dense(child)
                &&& ref_hash(node.child(slot)) == child.structural_hash@
                &&& canonical(child, store, route, structural_key, depth + 1)
                &&& forall|key: Seq<u8>, value: Seq<u8>| #[trigger]
                    holds(child, store, key, value, depth + 1) ==> bucket(route(key), depth)
                        == slot
            }
        }
}

/// A slot of a canonical node.
pub open spec fn slot_canonical<K: HamtCodec, V: HamtCodec>(
    node: HamtNode<K, V>,
    store: spec_fn(StructuralHash) -> HamtNode<K, V>,
    route: spec_fn(Seq<u8>) -> Seq<u8>,
    structural_key: Seq<u8>,
    depth: nat,
    slot: int,
) -> bool {
    &&& slot_set(node.datamap, slot) ==> bucket(route(node.leaf(slot).0.encoding()), depth) == slot
    &&& slot_set(node.nodemap, slot) ==> {
        let child = node_at(node.child(slot), store);
        &&& dense(child)
        &&& ref_hash(node.child(slot)) == child.structural_hash@
        &&& canonical(child, store, route, structural_key, depth + 1)
        &&& forall|key: Seq<u8>, value: Seq<u8>| #[trigger]
            holds(child, store, key, value, depth + 1) ==> bucket(route(key), depth) == slot
    }
}

/// The slots of a canonical node are canonical.
pub proof fn canonical_slot<K: HamtCodec, V: HamtCodec>(
    node: HamtNode<K, V>,
    store: spec_fn(StructuralHash) -> HamtNode<K, V>,
    route: spec_fn(Seq<u8>) -> Seq<u8>,
    structural_key: Seq<u8>,
    depth: nat,
    slot: int,
)
    requires
        canonical(node, store, route, structural_key, depth),
        0 <= slot < 32,
    ensures
        slot_canonical(node, store, route, structural_key, depth, slot),
{
    assert(is_slot(slot));
}

/// A node whose slots are all canonical is canonical.
pub proof fn canonical_from_slots<K: HamtCodec, V: HamtCodec>(
    node: HamtNode<K, V>,
    store: spec_fn(StructuralHash) -> HamtNode<K, V>,
    route: spec_fn(Seq<u8>) -> Seq<u8>,
    structural_key: Seq<u8>,
    depth: nat,
)
    requires
        depth < 52,
        node.shape(),
        depth == 51 ==> node.nodemap == 0,
        node.structural_hash@ == node.digest(structural_key),
        forall|slot: int|
            0 <= slot < 32 ==> #[trigger] slot_canonical(
                node,
                store,
                route,
                structural_key,
                depth,
                slot,
            ),
    ensures
        canonical(node, store, route, structural_key, depth),
{
    assert forall|slot: int| #[trigger] is_slot(slot) implies {
        &&& slot_set(node.datamap, slot) ==> bucket(
            route(node.leaf(slot).0.encoding()),
            depth,
        ) == slot
        &&& slot_set(node.nodemap, slot) ==> {
            let child = node_at(node.child(slot), store);
            &&& dense(child)
            &&& ref_hash(node.child(slot)) == child.structural_hash@
            &&& canonical(child, store, route, structural_key, depth + 1)
            &&& forall|key: Seq<u8>, value: Seq<u8>| #[trigger]
                holds(child, store, key, value, depth + 1) ==> bucket(route(key), depth) == slot
        }
    } by {
        assert(slot_canonical(node, store, route, structural_key, depth, slot));
    }
}

/// A route takes one of the 32 slots.
pub proof fn bucket_range(path: Seq<u8>, depth: nat)
    ensures
        0 <= bucket(path, depth) < 32,
{
}

/// An entry of a canonical trie stands in the slot that its route takes.
pub proof fn entry_slot<K: HamtCodec, V: HamtCodec>(
    node: HamtNode<K, V>,
    store: spec_fn(StructuralHash) -> HamtNode<K, V>,
    route: spec_fn(Seq<u8>) -> Seq<u8>,
    structural_key: Seq<u8>,
    key: Seq<u8>,
    value: Seq<u8>,
    depth: nat,
)
    requires
        canonical(node, store, route, structural_key, depth),
        holds(node, store, key, value, depth),
    ensures
        slot_holds(node, store, key, value, depth, bucket(route(key), depth)),
{
    let slot = node_in_slot(node, store, key, value, depth);
    canonical_slot(node, store, route, structural_key, depth, slot);
}

/// Looking a key up along its route finds exactly what a canonical trie holds.
pub proof fn lookup_finds<K: HamtCodec, V: HamtCodec>(
    node: HamtNode<K, V>,
    store: spec_fn(StructuralHash) -> HamtNode<K, V>,
    route: spec_fn(Seq<u8>) -> Seq<u8>,
    structural_key: Seq<u8>,
    key: Seq<u8>,
    value: Seq<u8>,
    depth: nat,
)
    requires
        canonical(node, store, route, structural_key, depth),
    ensures
        lookup(node, store, route(key), key, depth) == Some(value) <==> holds(
            node,
            store,
            key,
            value,
            depth,
        ),
    decreases 52 - depth,
{
    let slot = bucket(route(key), depth);
    bucket_range(route(key), depth);
    canonical_slot(node, store, route, structural_key, depth, slot);
    if slot_set(node.nodemap, slot) {
        disjoint_slots(node.datamap, node.nodemap, slot);
        lookup_finds(
            node_at(node.child(slot), store),
            store,
            route,
            structural_key,
            key,
            value,
            depth + 1,
        );
    }
    if lookup(node, store, route(key), key, depth) == Some(value) {
        slot_in_node(node, store, key, value, depth, slot);
    }
    if holds(node, store, key, value, depth) {
        entry_slot(node, store, route, structural_key, key, value, depth);
    }
}

/// A canonical trie holds at most one value for a key.
pub proof fn value_unique<K: HamtCodec, V: HamtCodec>(
    node: HamtNode<K, V>,
    store: spec_fn(StructuralHash) -> HamtNode<K, V>,
    route: spec_fn(Seq<u8>) -> Seq<u8>,
    structural_key: Seq<u8>,
    key: Seq<u8>,
    a: Seq<u8>,
    b: Seq<u8>,
    depth: nat,
)
    requires
        canonical(node, store, route, structural_key, depth),
        holds(node, store, key, a, depth),
        holds(node, store, key, b, depth),
    ensures
        a == b,
{
    lookup_finds(node, store, route, structural_key, key, a, depth);
    lookup_finds(node, store, route, structural_key, key, b, depth);
}

/// Two entries with different keys.
pub open spec fn two_keys<K: HamtCodec, V: HamtCodec>(
    node: HamtNode<K, V>,
    store: spec_fn(StructuralHash) -> HamtNode<K, V>,
    depth: nat,
    a: (Seq<u8>, Seq<u8>),
    b: (Seq<u8>, Seq<u8>),
) -> bool {
    a.0 != b.0 && holds(node, store, a.0, a.1, depth) && holds(node, store, b.0, b.1, depth)
}

/// A bitmap that is not zero marks some slot.
proof fn some_slot(bitmap: u32) -> (slot: int)
    requires
        bitmap != 0,
    ensures
        0 <= slot < 32,
        slot_set(bitmap, slot),
{
    if rank(bitmap, 32) == 0 {
        rank_zero_only(bitmap);
    }
    select_facts(bitmap, 0);
    select_slot(bitmap, 0)
}

/// A dense canonical node holds two different keys.
pub proof fn dense_holds_two<K: HamtCodec, V: HamtCodec>(
    node: HamtNode<K, V>,
    store: spec_fn(StructuralHash) -> HamtNode<K, V>,
    route: spec_fn(Seq<u8>) -> Seq<u8>,
    structural_key: Seq<u8>,
    depth: nat,
) -> (entries: ((Seq<u8>, Seq<u8>), (Seq<u8>, Seq<u8>)))
    requires
        canonical(node, store, route, structural_key, depth),
        dense(node),
    ensures
        two_keys(node, store, depth, entries.0, entries.1),
    decreases 52 - depth,
{
    if node.nodemap != 0 {
        let slot = some_slot(node.nodemap);
        disjoint_slots(node.datamap, node.nodemap, slot);
        canonical_slot(node, store, route, structural_key, depth, slot);
        let child = node_at(node.child(slot), store);
        let (a, b) = dense_holds_two(child, store, route, structural_key, depth + 1);
        slot_in_node(node, store, a.0, a.1, depth, slot);
        slot_in_node(node, store, b.0, b.1, depth, slot);
        (a, b)
    } else {
        let s = select_slot(node.datamap, 0);
        let t = select_slot(node.datamap, 1);
        select_facts(node.datamap, 0);
        select_facts(node.datamap, 1);
        canonical_slot(node, store, route, structural_key, depth, s);
        canonical_slot(node, store, route, structural_key, depth, t);
        let a = (node.leaf(s).0.encoding(), node.leaf(s).1.encoding());
        let b = (node.leaf(t).0.encoding(), node.leaf(t).1.encoding());
        slot_in_node(node, store, a.0, a.1, depth, s);
        slot_in_node(node, store, b.0, b.1, depth, t);
        (a, b)
    }
}

/// Two tries hold the same entries.
pub open spec fn same_entries<K: HamtCodec, V: HamtCodec>(
    a: HamtNode<K, V>,
    a_store: spec_fn(StructuralHash) -> HamtNode<K, V>,
    b: HamtNode<K, V>,
    b_store: spec_fn(StructuralHash) -> HamtNode<K, V>,
    depth: nat,
) -> bool {
    forall|key: Seq<u8>, value: Seq<u8>|
        #![trigger holds(a, a_store, key, value, depth)]
        #![trigger holds(b, b_store, key, value, depth)]
        holds(a, a_store, key, value, depth) <==> holds(b, b_store, key, value, depth)
}

/// A slot with a leaf has the same leaf in a canonical trie with the same entries.
pub proof fn leaf_agrees<K: HamtCodec, V: HamtCodec>(
    a: HamtNode<K, V>,
    a_store: spec_fn(StructuralHash) -> HamtNode<K, V>,
    b: HamtNode<K, V>,
    b_store: spec_fn(StructuralHash) -> HamtNode<K, V>,
    route: spec_fn(Seq<u8>) -> Seq<u8>,
    structural_key: Seq<u8>,
    depth: nat,
    slot: int,
)
    requires
        canonical(a, a_store, route, structural_key, depth),
        canonical(b, b_store, route, structural_key, depth),
        same_entries(a, a_store, b, b_store, depth),
        0 <= slot < 32,
        slot_set(a.datamap, slot),
    ensures
        slot_set(b.datamap, slot),
        a.leaf(slot).0.encoding() == b.leaf(slot).0.encoding(),
        a.leaf(slot).1.encoding() == b.leaf(slot).1.encoding(),
{
    let key = a.leaf(slot).0.encoding();
    let value = a.leaf(slot).1.encoding();
    canonical_slot(a, a_store, route, structural_key, depth, slot);
    slot_in_node(a, a_store, key, value, depth, slot);
    assert(holds(b, b_store, key, value, depth));
    entry_slot(b, b_store, route, structural_key, key, value, depth);
    if !slot_set(b.datamap, slot) {
        canonical_slot(b, b_store, route, structural_key, depth, slot);
        let child = node_at(b.child(slot), b_store);
        let (x, y) = dense_holds_two(child, b_store, route, structural_key, depth + 1);
        slot_in_node(b, b_store, x.0, x.1, depth, slot);
        slot_in_node(b, b_store, y.0, y.1, depth, slot);
        assert(holds(b, b_store, x.0, x.1, depth) && holds(b, b_store, y.0, y.1, depth));
        entry_slot(a, a_store, route, structural_key, x.0, x.1, depth);
        entry_slot(a, a_store, route, structural_key, y.0, y.1, depth);
    }
}

/// A slot with a child has a child with the same entries in a canonical trie
/// with the same entries.
pub proof fn child_agrees<K: HamtCodec, V: HamtCodec>(
    a: HamtNode<K, V>,
    a_store: spec_fn(StructuralHash) -> HamtNode<K, V>,
    b: HamtNode<K, V>,
    b_store: spec_fn(StructuralHash) -> HamtNode<K, V>,
    route: spec_fn(Seq<u8>) -> Seq<u8>,
    structural_key: Seq<u8>,
    depth: nat,
    slot: int,
)
    requires
        canonical(a, a_store, route, structural_key, depth),
        canonical(b, b_store, route, structural_key, depth),
        same_entries(a, a_store, b, b_store, depth),
        0 <= slot < 32,
        slot_set(a.nodemap, slot),
    ensures
        slot_set(b.nodemap, slot),
        same_entries(
            node_at(a.child(slot), a_store),
            a_store,
            node_at(b.child(slot), b_store),
            b_store,
            depth + 1,
        ),
{
    disjoint_slots(a.datamap, a.nodemap, slot);
    disjoint_slots(b.datamap, b.nodemap, slot);
    canonical_slot(a, a_store, route, structural_key, depth, slot);
    canonical_slot(b, b_store, route, structural_key, depth, slot);
    let ca = node_at(a.child(slot), a_store);
    let cb = node_at(b.child(slot), b_store);
    let (x, y) = dense_holds_two(ca, a_store, route, structural_key, depth + 1);
    slot_in_node(a, a_store, x.0, x.1, depth, slot);
    slot_in_node(a, a_store, y.0, y.1, depth, slot);
    assert(holds(a, a_store, x.0, x.1, depth) && holds(a, a_store, y.0, y.1, depth));
    entry_slot(b, b_store, route, structural_key, x.0, x.1, depth);
    entry_slot(b, b_store, route, structural_key, y.0, y.1, depth);
    assert(slot_set(b.nodemap, slot));
    assert forall|key: Seq<u8>, value: Seq<u8>|
        #![trigger holds(ca, a_store, key, value, depth + 1)]
        #![trigger holds(cb, b_store, key, value, depth + 1)]
        holds(ca, a_store, key, value, depth + 1) <==> holds(
            cb,
            b_store,
            key,
            value,
            depth + 1,
        ) by {
        if holds(ca, a_store, key, value, depth + 1) {
            slot_in_node(a, a_store, key, value, depth, slot);
            assert(holds(a, a_store, key, value, depth));
            entry_slot(b, b_store, route, structural_key, key, value, depth);
        }
        if holds(cb, b_store, key, value, depth + 1) {
            slot_in_node(b, b_store, key, value, depth, slot);
            assert(holds(b, b_store, key, value, depth));
            entry_slot(a, a_store, route, structural_key, key, value, depth);
        }
    }
}

/// Leaves with the same encodings have the same bytes.
pub proof fn leaf_bytes_agree<K: HamtCodec, V: HamtCodec>(a: Seq<(K, V)>, b: Seq<(K, V)>)
    requires
        a.len() == b.len(),
        forall|i: int|
            0 <= i < a.len() ==> (#[trigger] a[i]).0.encoding() == b[i].0.encoding()
                && a[i].1.encoding() == b[i].1.encoding(),
    ensures
        leaf_bytes(a) == leaf_bytes(b),
    decreases a.len(),
{
    if a.len() > 0 {
        let x = a.drop_last();
        let y = b.drop_last();
        assert forall|i: int| 0 <= i < x.len() implies (#[trigger] x[i]).0.encoding()
            == y[i].0.encoding() && x[i].1.encoding() == y[i].1.encoding() by {
            assert(x[i] == a[i]);
        }
        leaf_bytes_agree(x, y);
        assert(a[a.len() - 1].0.encoding() == b[a.len() - 1].0.encoding());
    }
}

/// Canonical tries with the same entries have the same shape, and so the same
/// structural hash: the hash depends on the entries alone, not on the history
/// of insertions and removals, nor on what has been loaded.
pub proof fn canonical_unique<K: HamtCodec, V: HamtCodec>(
    a: HamtNode<K, V>,
    a_store: spec_fn(StructuralHash) -> HamtNode<K, V>,
    b: HamtNode<K, V>,
    b_store: spec_fn(StructuralHash) -> HamtNode<K, V>,
    route: spec_fn(Seq<u8>) -> Seq<u8>,
    structural_key: Seq<u8>,
    depth: nat,
)
    requires
        canonical(a, a_store, route, structural_key, depth),
        canonical(b, b_store, route, structural_key, depth),
        same_entries(a, a_store, b, b_store, depth),
    ensures
        a.datamap == b.datamap,
        a.nodemap == b.nodemap,
        leaf_bytes(a.leaves@) == leaf_bytes(b.leaves@),
        ref_hashes(a.children@) == ref_hashes(b.children@),
        a.structural_hash@ == b.structural_hash@,
    decreases 52 - depth,
{
    assert forall|slot: int| 0 <= slot < 32 implies #[trigger] slot_set(a.datamap, slot)
        == slot_set(b.datamap, slot) by {
        if slot_set(a.datamap, slot) {
            leaf_agrees(a, a_store, b, b_store, route, structural_key, depth, slot);
        }
        if slot_set(b.datamap, slot) {
            leaf_agrees(b, b_store, a, a_store, route, structural_key, depth, slot);
        }
    }
    same_slots(a.datamap, b.datamap);
    assert forall|slot: int| 0 <= slot < 32 implies #[trigger] slot_set(a.nodemap, slot)
        == slot_set(b.nodemap, slot) by {
        if slot_set(a.nodemap, slot) {
            child_agrees(a, a_store, b, b_store, route, structural_key, depth, slot);
        }
        if slot_set(b.nodemap, slot) {
            child_agrees(b, b_store, a, a_store, route, structural_key, depth, slot);
        }
    }
    same_slots(a.nodemap, b.nodemap);
    assert forall|i: int| 0 <= i < a.leaves@.len() implies (#[trigger] a.leaves@[i]).0.encoding()
        == b.leaves@[i].0.encoding() && a.leaves@[i].1.encoding() == b.leaves@[i].1.encoding() by {
        let slot = select_slot(a.datamap, i);
        select_facts(a.datamap, i);
        leaf_agrees(a, a_store, b, b_store, route, structural_key, depth, slot);
    }
    leaf_bytes_agree(a.leaves@, b.leaves@);
    assert(ref_hashes(a.children@) =~= ref_hashes(b.children@)) by {
        assert forall|i: int| 0 <= i < a.children@.len() implies ref_hash(#[trigger] a.children@[i])
            == ref_hash(b.children@[i]) by {
            let slot = select_slot(a.nodemap, i);
            select_facts(a.nodemap, i);
            child_agrees(a, a_store, b, b_store, route, structural_key, depth, slot);
            canonical_slot(a, a_store, route, structural_key, depth, slot);
            canonical_slot(b, b_store, route, structural_key, depth, slot);
            canonical_unique(
                node_at(a.child(slot), a_store),
                a_store,
                node_at(b.child(slot), b_store),
                b_store,
                route,
                structural_key,
                depth + 1,
            );
        }
    }
}

/// The contents of a list of hashes.
pub open spec fn hash_views(hashes: Seq<StructuralHash>) -> Seq<Seq<u8>> {
    Seq::new(hashes.len(), |i: int| hashes[i]@)
}

/// The payload lengths agree with the bitmaps, which do not overlap, and the
/// leaves can be encoded.
pub open spec fn parts_fit<K: HamtCodec, V: HamtCodec>(
    datamap: u32,
    nodemap: u32,
    leaves: Seq<(K, V)>,
    child_count: nat,
) -> bool {
    &&& datamap & nodemap == 0
    &&& leaves.len() == rank(datamap, 32)
    &&& child_count == rank(nodemap, 32)
    &&& leaves_encodable(leaves)
}

/// Encodes the canonical representation shared by persistence and structural
/// hashing. Keeping this in one place ensures that a node's storage key commits
/// to precisely the bytes stored under that key.
pub(crate) fn encode_node_parts<K: HamtCodec, V: HamtCodec>(
    datamap: u32,
    nodemap: u32,
    leaves: &[(K, V)],
    child_hashes: &[StructuralHash],
) -> (bytes: Vec<u8>)
    requires
        parts_fit(datamap, nodemap, leaves@, child_hashes@.len()),
    ensures
        bytes@ == encoded_node(datamap, nodemap, leaves@, hash_views(child_hashes@)),
{
    let mut bytes: Vec<u8> = Vec::new();
    bytes.push(HAMT_WIRE_VERSION);
    push_le(&mut bytes, datamap as u128, 4);
    push_le(&mut bytes, nodemap as u128, 4);
    push_le(&mut bytes, leaves.len() as u128, 4);
    push_le(&mut bytes, child_hashes.len() as u128, 4);
    let ghost header = bytes@;
    let ghost hashes = hash_views(child_hashes@);
    let mut index: usize = 0;
    proof {
        assert(leaf_bytes(leaves@.take(0)) =~= Seq::<u8>::empty());
    }
    while index < leaves.len()
        invariant
            index <= leaves.len(),
            leaves_encodable(leaves@),
            bytes@ =~= header + leaf_bytes(leaves@.take(index as int)),
        decreases leaves.len() - index,
    {
        let entry: &(K, V) = &leaves[index];
        entry.0.encode_hamt(&mut bytes);
        entry.1.encode_hamt(&mut bytes);
        proof {
            let next = leaves@.take(index + 1);
            assert(next.drop_last() =~= leaves@.take(index as int));
            assert(next.last() == leaves@[index as int]);
        }
        index = index + 1;
    }
    proof {
        assert(leaves@.take(index as int) =~= leaves@);
        assert(hash_bytes(hashes.take(0)) =~= Seq::<u8>::empty());
    }
    let mut place: usize = 0;
    while place < child_hashes.len()
        invariant
            place <= child_hashes.len(),
            hashes == hash_views(child_hashes@),
            bytes@ =~= header + leaf_bytes(leaves@) + hash_bytes(hashes.take(place as int)),
        decreases child_hashes.len() - place,
    {
        bytes.extend_from_slice(child_hashes[place].as_slice());
        proof {
            let next = hashes.take(place + 1);
            assert(next.drop_last() =~= hashes.take(place as int));
            assert(next.last() == hashes[place as int]);
        }
        place = place + 1;
    }
    proof {
        assert(hashes.take(place as int) =~= hashes);
        assert(bytes@ =~= encoded_node(datamap, nodemap, leaves@, hashes));
    }
    bytes
}

/// Appends the bytes that set node hashes apart.
fn push_domain(out: &mut Vec<u8>)
    ensures
        final(out)@ == old(out)@ + node_domain(),
{
    let ghost start = out@;
    out.push(0x68);
    out.push(0x61);
    out.push(0x6d);
    out.push(0x74);
    out.push(0x2f);
    out.push(0x6e);
    out.push(0x31);
    proof {
        assert(out@ =~= start + node_domain());
    }
}

/// The domain prefix of node hashes.
pub fn structural_hash_domain() -> (domain: Vec<u8>)
    ensures
        domain@ == node_domain(),
{
    let mut domain: Vec<u8> = Vec::new();
    push_domain(&mut domain);
    proof {
        assert(domain@ =~= node_domain());
    }
    domain
}

impl<K, V> NodeRef<K, V> {
    /// Gets the structural hash of the child node without loading it.
    #[must_use]
    pub fn structural_hash(&self) -> (hash: StructuralHash)
        ensures
            hash@ == ref_hash(*self),
    {
        match self {
            NodeRef::Resolved(node) => node.structural_hash,
            NodeRef::Lazy(hash) => *hash,
        }
    }

    /// Another reference to the same node.
    pub(crate) fn share(&self) -> (copy: Self)
        ensures
            copy == *self,
    {
        match self {
            NodeRef::Resolved(node) => NodeRef::Resolved(node.clone()),
            NodeRef::Lazy(hash) => NodeRef::Lazy(*hash),
        }
    }
}

/// References to the same nodes.
pub(crate) fn share_all<K, V>(children: &Vec<NodeRef<K, V>>) -> (copies: Vec<NodeRef<K, V>>)
    ensures
        copies@ == children@,
{
    let mut copies: Vec<NodeRef<K, V>> = Vec::new();
    let mut index: usize = 0;
    while index < children.len()
        invariant
            index <= children.len(),
            copies@.len() == index,
            forall|i: int| 0 <= i < index ==> copies@[i] == children@[i],
        decreases children.len() - index,
    {
        copies.push(children[index].share());
        index = index + 1;
    }
    proof {
        assert(copies@ =~= children@);
    }
    copies
}

impl<K: HamtCodec, V: HamtCodec> HamtNode<K, V> {
    /// Computes the structural hash of this node from its contents.
    ///
    /// The hash commits to the canonical persisted bytes of the node.
    pub fn compute_structural_hash(
        key: &[u8],
        datamap: u32,
        nodemap: u32,
        leaves: &[(K, V)],
        children: &[NodeRef<K, V>],
    ) -> (hash: StructuralHash)
        requires
            parts_fit(datamap, nodemap, leaves@, children@.len()),
        ensures
            hash@ == node_digest(key@, datamap, nodemap, leaves@, ref_hashes(children@)),
    {
        let mut hashes: Vec<StructuralHash> = Vec::new();
        let mut index: usize = 0;
        while index < children.len()
            invariant
                index <= children.len(),
                hashes@.len() == index,
                forall|i: int| 0 <= i < index ==> (#[trigger] hashes@[i])@ == ref_hash(children@[i]),
            decreases children.len() - index,
        {
            hashes.push(children[index].structural_hash());
            index = index + 1;
        }
        proof {
            assert(hash_views(hashes@) =~= ref_hashes(children@));
        }
        let bytes: Vec<u8> = encode_node_parts(datamap, nodemap, leaves, hashes.as_slice());
        let mut data: Vec<u8> = Vec::new();
        push_domain(&mut data);
        data.extend_from_slice(bytes.as_slice());
        proof {
            assert(data@ =~= node_domain() + bytes@);
        }
        structural_hash_of(key, &data)
    }

    /// Returns `true` if this node contains no leaf entries and no child nodes.
    ///
    /// This is a constant-time structural check on the node's bitmaps.
    #[must_use]
    pub fn is_empty(&self) -> (result: bool)
        ensures
            result == (self.datamap == 0 && self.nodemap == 0),
    {
        self.datamap == 0 && self.nodemap == 0
    }
}

/// A node of the given contents, with its structural hash.
pub(crate) fn rebuild_node<K: HamtCodec, V: HamtCodec>(
    structural_key: &[u8],
    datamap: u32,
    nodemap: u32,
    leaves: Vec<(K, V)>,
    children: Vec<NodeRef<K, V>>,
) -> (node: Arc<HamtNode<K, V>>)
    requires
        parts_fit(datamap, nodemap, leaves@, children@.len()),
    ensures
        node.datamap == datamap,
        node.nodemap == nodemap,
        node.leaves == leaves,
        node.children == children,
        node.shape(),
        node.structural_hash@ == node.digest(structural_key@),
{
    let structural_hash: StructuralHash = HamtNode::compute_structural_hash(
        structural_key,
        datamap,
        nodemap,
        leaves.as_slice(),
        children.as_slice(),
    );
    Arc::new(HamtNode { datamap, nodemap, leaves, children, structural_hash })
}

/// The routing hash of a key: the keyed hash of its routing bytes.
pub open spec fn default_route<K: HamtKey>(structural_key: Seq<u8>) -> spec_fn(Seq<u8>) -> Seq<u8> {
    |encoding: Seq<u8>| keyed_hash(structural_key, K::routing_of(encoding))
}

/// Computes the routing hash of a key.
pub fn key_path_hash<K: HamtKey>(structural_key: &[u8], key: &K) -> (hash: StructuralHash)
    requires
        key.encodable(),
    ensures
        hash@ == default_route::<K>(structural_key@)(key.encoding()),
{
    let mut data: Vec<u8> = Vec::new();
    key.push_routing(&mut data);
    proof {
        assert(data@ =~= K::routing_of(key.encoding()));
    }
    structural_hash_of(structural_key, &data)
}

/// A routing function can be asked about any key that can be encoded.
pub open spec fn routing_total<K: HamtCodec, F>(f: F) -> bool where
    F: FnMut(&K) -> StructuralHash,
 {
    forall|key: &K| key.encodable() ==> #[trigger] call_requires(f, (key,))
}

} // verus!
