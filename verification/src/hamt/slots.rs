//! How changing one slot of a node changes what the node holds.

use vstd::prelude::*;
use super::bitmap::{
    rank, rank_injective, rank_monotone, rank_with_slot, rank_without_slot, slot_set, slot_updates,
    with_slot, without_slot,
};
use super::codec::HamtCodec;
use super::hash::StructuralHash;
use super::node::{
    bucket, bucket_range, canonical, canonical_from_slots, canonical_slot, entry_slot, holds,
    node_at, node_in_slot, readable, slot_canonical, slot_holds, slot_in_node, HamtNode, NodeRef,
};
use super::read::clone_keeps;

verus! {

/// Marking a slot and inserting its item keeps the items of the other slots.
pub proof fn inserted_at<T>(bitmap: u32, slot: int, items: Seq<T>, item: T)
    requires
        0 <= slot < 32,
        !slot_set(bitmap, slot),
        items.len() == rank(bitmap, 32),
    ensures
        rank(bitmap, slot) <= items.len(),
        rank(with_slot(bitmap, slot), 32) == items.len() + 1,
        slot_set(with_slot(bitmap, slot), slot),
        items.insert(rank(bitmap, slot) as int, item)[rank(
            with_slot(bitmap, slot),
            slot,
        ) as int] == item,
        forall|t: int|
            0 <= t < 32 && t != slot ==> {
                &&& #[trigger] slot_set(with_slot(bitmap, slot), t) == slot_set(bitmap, t)
                &&& slot_set(bitmap, t) ==> items.insert(rank(bitmap, slot) as int, item)[rank(
                    with_slot(bitmap, slot),
                    t,
                ) as int] == items[rank(bitmap, t) as int]
            },
{
    rank_monotone(bitmap, slot, 32);
    rank_with_slot(bitmap, slot, 32);
    rank_with_slot(bitmap, slot, slot);
    slot_updates(bitmap, slot, slot);
    assert forall|t: int| 0 <= t < 32 && t != slot implies {
        &&& #[trigger] slot_set(with_slot(bitmap, slot), t) == slot_set(bitmap, t)
        &&& slot_set(bitmap, t) ==> items.insert(rank(bitmap, slot) as int, item)[rank(
            with_slot(bitmap, slot),
            t,
        ) as int] == items[rank(bitmap, t) as int]
    } by {
        slot_updates(bitmap, slot, t);
        rank_with_slot(bitmap, slot, t);
        if slot_set(bitmap, t) {
            rank_monotone(bitmap, t + 1, 32);
            if t < slot {
                rank_monotone(bitmap, t + 1, slot);
            } else {
                rank_monotone(bitmap, slot, t);
            }
        }
    }
}

/// Clearing a slot and removing its item keeps the items of the other slots.
pub proof fn removed_at<T>(bitmap: u32, slot: int, items: Seq<T>)
    requires
        0 <= slot < 32,
        slot_set(bitmap, slot),
        items.len() == rank(bitmap, 32),
    ensures
        rank(bitmap, slot) < items.len(),
        rank(without_slot(bitmap, slot), 32) == items.len() - 1,
        rank(without_slot(bitmap, slot), slot) == rank(bitmap, slot),
        !slot_set(without_slot(bitmap, slot), slot),
        forall|t: int|
            0 <= t < 32 && t != slot ==> {
                &&& #[trigger] slot_set(without_slot(bitmap, slot), t) == slot_set(bitmap, t)
                &&& slot_set(bitmap, t) ==> items.remove(rank(bitmap, slot) as int)[rank(
                    without_slot(bitmap, slot),
                    t,
                ) as int] == items[rank(bitmap, t) as int]
            },
{
    rank_monotone(bitmap, slot + 1, 32);
    rank_without_slot(bitmap, slot, 32);
    rank_without_slot(bitmap, slot, slot);
    slot_updates(bitmap, slot, slot);
    assert forall|t: int| 0 <= t < 32 && t != slot implies {
        &&& #[trigger] slot_set(without_slot(bitmap, slot), t) == slot_set(bitmap, t)
        &&& slot_set(bitmap, t) ==> items.remove(rank(bitmap, slot) as int)[rank(
            without_slot(bitmap, slot),
            t,
        ) as int] == items[rank(bitmap, t) as int]
    } by {
        slot_updates(bitmap, slot, t);
        rank_without_slot(bitmap, slot, t);
        if slot_set(bitmap, t) {
            rank_monotone(bitmap, t + 1, 32);
            if t < slot {
                rank_monotone(bitmap, t + 1, slot);
            } else {
                rank_monotone(bitmap, slot + 1, t);
            }
        }
    }
}

/// Replacing the item of a slot keeps the items of the other slots.
pub proof fn updated_at<T>(bitmap: u32, slot: int, items: Seq<T>, item: T)
    requires
        0 <= slot < 32,
        slot_set(bitmap, slot),
        items.len() == rank(bitmap, 32),
    ensures
        rank(bitmap, slot) < items.len(),
        items.update(rank(bitmap, slot) as int, item)[rank(bitmap, slot) as int] == item,
        forall|t: int|
            0 <= t < 32 && t != slot && #[trigger] slot_set(bitmap, t) ==> items.update(
                rank(bitmap, slot) as int,
                item,
            )[rank(bitmap, t) as int] == items[rank(bitmap, t) as int],
{
    rank_monotone(bitmap, slot + 1, 32);
    assert forall|t: int| 0 <= t < 32 && t != slot && #[trigger] slot_set(
        bitmap,
        t,
    ) implies items.update(rank(bitmap, slot) as int, item)[rank(bitmap, t) as int] == items[rank(
        bitmap,
        t,
    ) as int] by {
        rank_injective(bitmap, slot, t);
        rank_injective(bitmap, t, slot);
    }
}

/// Two leaf entries have the same encodings.
pub open spec fn same_leaf<K: HamtCodec, V: HamtCodec>(a: (K, V), b: (K, V)) -> bool {
    a.0.encoding() == b.0.encoding() && a.1.encoding() == b.1.encoding()
}

/// A slot of two nodes has the same contents.
pub open spec fn same_slot<K: HamtCodec, V: HamtCodec>(
    a: HamtNode<K, V>,
    b: HamtNode<K, V>,
    slot: int,
) -> bool {
    &&& slot_set(a.datamap, slot) == slot_set(b.datamap, slot)
    &&& slot_set(a.nodemap, slot) == slot_set(b.nodemap, slot)
    &&& slot_set(a.datamap, slot) ==> same_leaf(a.leaf(slot), b.leaf(slot))
    &&& slot_set(a.nodemap, slot) ==> a.child(slot) == b.child(slot)
}

/// The nodes agree but for one slot.
pub open spec fn same_but<K: HamtCodec, V: HamtCodec>(
    a: HamtNode<K, V>,
    b: HamtNode<K, V>,
    slot: int,
) -> bool {
    forall|t: int| 0 <= t < 32 && t != slot ==> #[trigger] same_slot(a, b, t)
}

/// A node that agrees with a canonical node but for one slot holds what the
/// slot holds and what the other node holds outside the slot.
pub proof fn slot_entries<K: HamtCodec, V: HamtCodec>(
    a: HamtNode<K, V>,
    b: HamtNode<K, V>,
    store: spec_fn(StructuralHash) -> HamtNode<K, V>,
    route: spec_fn(Seq<u8>) -> Seq<u8>,
    structural_key: Seq<u8>,
    depth: nat,
    slot: int,
)
    requires
        0 <= slot < 32,
        canonical(a, store, route, structural_key, depth),
        same_but(a, b, slot),
    ensures
        forall|key: Seq<u8>, value: Seq<u8>| #[trigger]
            holds(b, store, key, value, depth) <==> {
                ||| slot_holds(b, store, key, value, depth, slot)
                ||| holds(a, store, key, value, depth) && bucket(route(key), depth) != slot
            },
        forall|key: Seq<u8>, value: Seq<u8>| #[trigger]
            slot_holds(a, store, key, value, depth, slot) <==> holds(a, store, key, value, depth)
                && bucket(route(key), depth) == slot,
{
    assert forall|key: Seq<u8>, value: Seq<u8>| #[trigger]
        holds(b, store, key, value, depth) <==> {
            ||| slot_holds(b, store, key, value, depth, slot)
            ||| holds(a, store, key, value, depth) && bucket(route(key), depth) != slot
        } by {
        if holds(b, store, key, value, depth) {
            let t = node_in_slot(b, store, key, value, depth);
            if t != slot {
                assert(same_slot(a, b, t));
                canonical_slot(a, store, route, structural_key, depth, t);
                slot_in_node(a, store, key, value, depth, t);
            }
        }
        if slot_holds(b, store, key, value, depth, slot) {
            slot_in_node(b, store, key, value, depth, slot);
        }
        let t = bucket(route(key), depth);
        bucket_range(route(key), depth);
        if holds(a, store, key, value, depth) && t != slot {
            entry_slot(a, store, route, structural_key, key, value, depth);
            assert(same_slot(a, b, t));
            slot_in_node(b, store, key, value, depth, t);
        }
    }
    assert forall|key: Seq<u8>, value: Seq<u8>| #[trigger]
        slot_holds(a, store, key, value, depth, slot) <==> holds(a, store, key, value, depth)
            && bucket(route(key), depth) == slot by {
        if slot_holds(a, store, key, value, depth, slot) {
            canonical_slot(a, store, route, structural_key, depth, slot);
            slot_in_node(a, store, key, value, depth, slot);
        }
        if holds(a, store, key, value, depth) {
            entry_slot(a, store, route, structural_key, key, value, depth);
        }
    }
}

/// A node that agrees with a canonical node but for one slot, which is itself
/// canonical, is canonical.
pub proof fn slot_change<K: HamtCodec, V: HamtCodec>(
    a: HamtNode<K, V>,
    b: HamtNode<K, V>,
    store: spec_fn(StructuralHash) -> HamtNode<K, V>,
    route: spec_fn(Seq<u8>) -> Seq<u8>,
    structural_key: Seq<u8>,
    depth: nat,
    slot: int,
)
    requires
        0 <= slot < 32,
        canonical(a, store, route, structural_key, depth),
        b.shape(),
        depth == 51 ==> b.nodemap == 0,
        b.structural_hash@ == b.digest(structural_key),
        same_but(a, b, slot),
        slot_canonical(b, store, route, structural_key, depth, slot),
    ensures
        canonical(b, store, route, structural_key, depth),
{
    assert forall|t: int| 0 <= t < 32 implies #[trigger] slot_canonical(
        b,
        store,
        route,
        structural_key,
        depth,
        t,
    ) by {
        if t != slot {
            assert(same_slot(a, b, t));
            canonical_slot(a, store, route, structural_key, depth, t);
        }
    }
    canonical_from_slots(b, store, route, structural_key, depth);
}

/// A node whose children are those of a readable node, but for one readable
/// child, is readable.
pub proof fn readable_change<K: HamtCodec, V: HamtCodec>(
    load: spec_fn(StructuralHash, HamtNode<K, V>) -> bool,
    store: spec_fn(StructuralHash) -> HamtNode<K, V>,
    a: HamtNode<K, V>,
    b: HamtNode<K, V>,
    levels: nat,
)
    requires
        readable(load, store, a, levels),
        b.shape(),
        levels > 0 ==> forall|i: int|
            0 <= i < b.children@.len() ==> {
                ||| exists|j: int|
                    0 <= j < a.children@.len() && #[trigger] a.children@[j] == b.children@[i]
                ||| #[trigger] b.children@[i] matches NodeRef::Resolved(child) && readable(
                    load,
                    store,
                    *child,
                    (levels - 1) as nat,
                )
            },
    ensures
        readable(load, store, b, levels),
{
    if levels > 0 {
        assert forall|i: int| 0 <= i < b.children@.len() implies {
            &&& (#[trigger] b.children@[i]) matches NodeRef::Lazy(h) ==> forall|
                n: HamtNode<K, V>,
            | #[trigger]
                load(h, n) ==> n == store(h)
            &&& readable(load, store, node_at(b.children@[i], store), (levels - 1) as nat)
        } by {
            if exists|j: int|
                0 <= j < a.children@.len() && #[trigger] a.children@[j] == b.children@[i] {
                let j = choose|j: int|
                    0 <= j < a.children@.len() && #[trigger] a.children@[j] == b.children@[i];
                assert(a.children@[j] == b.children@[i]);
            }
        }
    }
}

/// Entries with the same encodings, one for one.
pub open spec fn same_leaves<K: HamtCodec, V: HamtCodec>(
    a: Seq<(K, V)>,
    b: Seq<(K, V)>,
) -> bool {
    &&& a.len() == b.len()
    &&& forall|i: int|
        0 <= i < a.len() ==> {
            &&& same_leaf(a[i], #[trigger] b[i])
            &&& a[i].0.encodable() == b[i].0.encodable()
            &&& a[i].1.encodable() == b[i].1.encodable()
        }
}

/// Copies of leaf entries.
pub(crate) fn clone_leaves<K: HamtCodec + Clone, V: HamtCodec + Clone>(
    leaves: &Vec<(K, V)>,
) -> (copies: Vec<(K, V)>)
    ensures
        clone_keeps::<K>() && clone_keeps::<V>() ==> same_leaves(leaves@, copies@),
{
    let mut copies: Vec<(K, V)> = Vec::new();
    let mut index: usize = 0;
    while index < leaves.len()
        invariant
            index <= leaves.len(),
            clone_keeps::<K>() && clone_keeps::<V>() ==> same_leaves(
                leaves@.take(index as int),
                copies@,
            ),
        decreases leaves.len() - index,
    {
        let entry: &(K, V) = &leaves[index];
        let key: K = entry.0.clone();
        let value: V = entry.1.clone();
        proof {
            assert(cloned(entry.0, key) && cloned(entry.1, value));
        }
        copies.push((key, value));
        index = index + 1;
    }
    proof {
        assert(leaves@.take(index as int) =~= leaves@);
    }
    copies
}

} // verus!
