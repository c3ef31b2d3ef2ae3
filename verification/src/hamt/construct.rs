//! Building a trie from entries.

use std::sync::Arc;
use vstd::arithmetic::power2::lemma2_to64;
use vstd::prelude::*;
use super::bitmap::{
    disjoint_slots, disjoint_updates, rank, rank_injective, rank_monotone, rank_zero, select_facts,
    select_slot, slot_set, slot_updates,
};
use super::codec::{HamtCodec, HamtKey};
use super::hash::{RootHandle, StructuralHash};
use super::node::{
    bucket, bucket_index, bucket_range, canonical, canonical_from_slots, default_route, dense,
    holds, key_path_hash, leaves_encodable, node_at, node_in_slot, readable, rebuild_node,
    routing_total, slot_canonical, slot_in_node, HamtNode, NodeRef, HAMT_BRANCH_FACTOR,
    HAMT_MAX_DEPTH,
};
use super::slots::inserted_at;
use crate::collections::reversed;
use crate::state::LtHash;

verus! {

/// Errors that can occur while building a trie from entries.
#[derive(Clone, Debug, PartialEq, Eq, Structural)]
pub enum HamtBuildError {
    /// Too many entries collided into the same slot after exhausting the
    /// available hash depth.
    HashCollision { depth: usize, bucket_size: usize },
}

/// An entry with the routing hash of its key.
pub struct BuildEntry<K, V> {
    pub key: K,
    pub value: V,
    pub path_hash: StructuralHash,
}

/// The entries whose route takes a slot at a depth, in order.
pub open spec fn in_slot<K, V>(
    entries: Seq<BuildEntry<K, V>>,
    depth: nat,
    slot: int,
) -> Seq<BuildEntry<K, V>> {
    entries.filter(|e: BuildEntry<K, V>| bucket(e.path_hash@, depth) == slot)
}

/// The depth and size of the first group of entries, in the order of slots
/// from `slot` on, whose routes agree down to the last level.
pub open spec fn collision<K, V>(
    entries: Seq<BuildEntry<K, V>>,
    depth: nat,
    slot: nat,
) -> Option<(nat, nat)>
    decreases 52 - depth, 32 - slot,
{
    if depth >= 52 {
        Some((depth, entries.len()))
    } else if slot >= 32 {
        None
    } else {
        let here = in_slot(entries, depth, slot as int);
        if here.len() < 2 {
            collision(entries, depth, slot + 1)
        } else if depth + 1 >= 52 {
            Some((depth, here.len()))
        } else {
            match collision(here, depth + 1, 0) {
                Some(found) => Some(found),
                None => collision(entries, depth, slot + 1),
            }
        }
    }
}

/// The entries hold the key with the value.
pub open spec fn listed<K: HamtCodec, V: HamtCodec>(
    entries: Seq<BuildEntry<K, V>>,
    key: Seq<u8>,
    value: Seq<u8>,
) -> bool {
    exists|i: int|
        0 <= i < entries.len() && (#[trigger] entries[i]).key.encoding() == key
            && entries[i].value.encoding() == value
}

/// The entries carry the hashes of a route.
pub open spec fn routed<K: HamtCodec, V: HamtCodec>(
    entries: Seq<BuildEntry<K, V>>,
    route: spec_fn(Seq<u8>) -> Seq<u8>,
) -> bool {
    forall|i: int|
        0 <= i < entries.len() ==> (#[trigger] entries[i]).path_hash@ == route(
            entries[i].key.encoding(),
        )
}

/// Every entry can be encoded.
pub open spec fn entries_encodable<K: HamtCodec, V: HamtCodec>(
    entries: Seq<BuildEntry<K, V>>,
) -> bool {
    forall|i: int|
        0 <= i < entries.len() ==> (#[trigger] entries[i]).key.encodable()
            && entries[i].value.encodable()
}

/// The node holds exactly the entries, in canonical form, with nothing left to
/// be loaded.
pub open spec fn built<K: HamtCodec, V: HamtCodec>(
    node: HamtNode<K, V>,
    entries: Seq<BuildEntry<K, V>>,
    structural_key: Seq<u8>,
    depth: nat,
) -> bool {
    &&& entries.len() >= 2 ==> dense(node)
    &&& forall|
        load: spec_fn(StructuralHash, HamtNode<K, V>) -> bool,
        store: spec_fn(StructuralHash) -> HamtNode<K, V>,
    | #[trigger]
        readable(load, store, node, (52 - depth) as nat)
    &&& forall|
        store: spec_fn(StructuralHash) -> HamtNode<K, V>,
        route: spec_fn(Seq<u8>) -> Seq<u8>,
    |
        routed(entries, route) ==> #[trigger] canonical(node, store, route, structural_key, depth)
    &&& forall|
        store: spec_fn(StructuralHash) -> HamtNode<K, V>,
        key: Seq<u8>,
        value: Seq<u8>,
    | #[trigger]
        holds(node, store, key, value, depth) <==> listed(entries, key, value)
}

/// What a slot of a node being built holds.
pub open spec fn slot_built<K: HamtCodec, V: HamtCodec>(
    datamap: u32,
    nodemap: u32,
    leaves: Seq<(K, V)>,
    children: Seq<NodeRef<K, V>>,
    here: Seq<BuildEntry<K, V>>,
    structural_key: Seq<u8>,
    depth: nat,
    slot: int,
) -> bool {
    &&& slot_set(datamap, slot) <==> here.len() == 1
    &&& slot_set(nodemap, slot) <==> here.len() >= 2
    &&& here.len() == 1 ==> {
        &&& rank(datamap, slot) < leaves.len()
        &&& leaves[rank(datamap, slot) as int] == (here[0].key, here[0].value)
    }
    &&& here.len() >= 2 ==> {
        &&& rank(nodemap, slot) < children.len()
        &&& children[rank(nodemap, slot) as int] matches NodeRef::Resolved(child) && built(
            *child,
            here,
            structural_key,
            depth + 1,
        )
    }
}

proof fn slot_members<K: HamtCodec, V: HamtCodec>(
    entries: Seq<BuildEntry<K, V>>,
    depth: nat,
    slot: int,
)
    ensures
        in_slot(entries, depth, slot).len() <= entries.len(),
        forall|i: int|
            0 <= i < in_slot(entries, depth, slot).len() ==> {
                &&& bucket((#[trigger] in_slot(entries, depth, slot)[i]).path_hash@, depth) == slot
                &&& entries.contains(in_slot(entries, depth, slot)[i])
            },
        forall|i: int|
            0 <= i < entries.len() && bucket((#[trigger] entries[i]).path_hash@, depth) == slot
                ==> in_slot(entries, depth, slot).contains(entries[i]),
        entries_encodable(entries) ==> entries_encodable(in_slot(entries, depth, slot)),
        forall|route: spec_fn(Seq<u8>) -> Seq<u8>|
            routed(entries, route) ==> #[trigger] routed(in_slot(entries, depth, slot), route),
{
    let pred = |e: BuildEntry<K, V>| bucket(e.path_hash@, depth) == slot;
    let here = in_slot(entries, depth, slot);
    filter_members(entries, pred);
    assert forall|i: int|
        0 <= i < entries.len() && bucket((#[trigger] entries[i]).path_hash@, depth)
            == slot implies here.contains(entries[i]) by {
        assert(pred(entries[i]));
    }
    assert forall|i: int| 0 <= i < here.len() implies bucket(
        (#[trigger] here[i]).path_hash@,
        depth,
    ) == slot && entries.contains(here[i]) by {
        assert(pred(here[i]));
    }
}

/// A filter keeps members that satisfy the predicate, and no others.
pub(crate) proof fn filter_members<T>(items: Seq<T>, pred: spec_fn(T) -> bool)
    ensures
        items.filter(pred).len() <= items.len(),
        forall|i: int|
            0 <= i < items.filter(pred).len() ==> pred(#[trigger] items.filter(pred)[i])
                && items.contains(items.filter(pred)[i]),
        forall|i: int|
            0 <= i < items.len() && pred(#[trigger] items[i]) ==> items.filter(pred).contains(
                items[i],
            ),
    decreases items.len(),
{
    reveal(Seq::filter);
    if items.len() > 0 {
        let front = items.drop_last();
        let kept = front.filter(pred);
        let all = items.filter(pred);
        filter_members(front, pred);
        assert forall|i: int| 0 <= i < all.len() implies pred(#[trigger] all[i]) && items.contains(
            all[i],
        ) by {
            if i < kept.len() {
                assert(all[i] == kept[i]);
                let j = choose|j: int| 0 <= j < front.len() && front[j] == kept[i];
                assert(items[j] == all[i]);
            } else {
                assert(items[items.len() - 1] == all[i]);
            }
        }
        assert forall|i: int| 0 <= i < items.len() && pred(
            #[trigger] items[i],
        ) implies all.contains(items[i]) by {
            if i < front.len() {
                assert(front[i] == items[i]);
                let j = choose|j: int| 0 <= j < kept.len() && kept[j] == front[i];
                assert(all[j] == items[i]);
            } else {
                assert(all[all.len() - 1] == items[i]);
            }
        }
    }
}

/// A node whose slots hold the entries of the slots holds the entries.
proof fn built_from_slots<K: HamtCodec, V: HamtCodec>(
    node: HamtNode<K, V>,
    entries: Seq<BuildEntry<K, V>>,
    structural_key: Seq<u8>,
    depth: nat,
)
    requires
        depth < 52,
        entries_encodable(entries),
        node.shape(),
        node.structural_hash@ == node.digest(structural_key),
        depth == 51 ==> node.nodemap == 0,
        forall|slot: int|
            0 <= slot < 32 ==> #[trigger] slot_built(
                node.datamap,
                node.nodemap,
                node.leaves@,
                node.children@,
                in_slot(entries, depth, slot),
                structural_key,
                depth,
                slot,
            ),
    ensures
        built(node, entries, structural_key, depth),
{
    let made = |slot: int|
        slot_built(
            node.datamap,
            node.nodemap,
            node.leaves@,
            node.children@,
            in_slot(entries, depth, slot),
            structural_key,
            depth,
            slot,
        );
    // Dense: two entries share a slot, or take two slots.
    if entries.len() >= 2 && node.nodemap == 0 {
        let s = bucket(entries[0].path_hash@, depth);
        let t = bucket(entries[1].path_hash@, depth);
        bucket_range(entries[0].path_hash@, depth);
        bucket_range(entries[1].path_hash@, depth);
        slot_members(entries, depth, s);
        slot_members(entries, depth, t);
        assert(made(s) && made(t));
        slot_updates(0, s, s);
        slot_updates(0, t, t);
        assert(in_slot(entries, depth, s).contains(entries[0]));
        assert(in_slot(entries, depth, t).contains(entries[1]));
        assert(slot_set(node.datamap, s) && slot_set(node.datamap, t));
        if s == t {
            two_kept(entries, |e: BuildEntry<K, V>| bucket(e.path_hash@, depth) == s);
        } else {
            rank_injective(node.datamap, s, t);
            rank_injective(node.datamap, t, s);
        }
    }
    assert forall|
        load: spec_fn(StructuralHash, HamtNode<K, V>) -> bool,
        store: spec_fn(StructuralHash) -> HamtNode<K, V>,
    | #[trigger] readable(load, store, node, (52 - depth) as nat) by {
        assert forall|i: int| 0 <= i < node.children@.len() implies {
            &&& (#[trigger] node.children@[i]) matches NodeRef::Lazy(h) ==> forall|
                n: HamtNode<K, V>,
            | #[trigger]
                load(h, n) ==> n == store(h)
            &&& readable(load, store, node_at(node.children@[i], store), (51 - depth) as nat)
        } by {
            let slot = select_slot(node.nodemap, i);
            select_facts(node.nodemap, i);
            assert(made(slot));
            match node.children@[i] {
                NodeRef::Resolved(child) => {
                    assert(built(*child, in_slot(entries, depth, slot), structural_key, depth + 1));
                    assert(readable(load, store, *child, (52 - (depth + 1)) as nat));
                },
                NodeRef::Lazy(_) => {},
            }
        }
    }
    assert forall|
        store: spec_fn(StructuralHash) -> HamtNode<K, V>,
        route: spec_fn(Seq<u8>) -> Seq<u8>,
    | routed(entries, route) implies #[trigger] canonical(
        node,
        store,
        route,
        structural_key,
        depth,
    ) by {
        assert forall|slot: int| 0 <= slot < 32 implies #[trigger] slot_canonical(
            node,
            store,
            route,
            structural_key,
            depth,
            slot,
        ) by {
            let here = in_slot(entries, depth, slot);
            assert(made(slot));
            slot_members(entries, depth, slot);
            if slot_set(node.datamap, slot) {
                assert(here[0].path_hash@ == route(here[0].key.encoding()));
            }
            if slot_set(node.nodemap, slot) {
                let child = node_at(node.child(slot), store);
                assert(built(child, here, structural_key, depth + 1));
                assert(canonical(child, store, route, structural_key, depth + 1));
                assert forall|key: Seq<u8>, value: Seq<u8>| #[trigger]
                    holds(child, store, key, value, depth + 1) implies bucket(route(key), depth)
                    == slot by {
                    assert(listed(here, key, value));
                }
            }
        }
        canonical_from_slots(node, store, route, structural_key, depth);
    }
    assert forall|
        store: spec_fn(StructuralHash) -> HamtNode<K, V>,
        key: Seq<u8>,
        value: Seq<u8>,
    | #[trigger] holds(node, store, key, value, depth) <==> listed(entries, key, value) by {
        if holds(node, store, key, value, depth) {
            let slot = node_in_slot(node, store, key, value, depth);
            let here = in_slot(entries, depth, slot);
            assert(made(slot));
            slot_members(entries, depth, slot);
            assert(listed(here, key, value)) by {
                if slot_set(node.datamap, slot) {
                    assert(here[0].key.encoding() == key);
                } else {
                    let child = node_at(node.child(slot), store);
                    assert(holds(child, store, key, value, depth + 1));
                }
            }
            let i = choose|i: int|
                0 <= i < here.len() && (#[trigger] here[i]).key.encoding() == key
                    && here[i].value.encoding() == value;
            let j = choose|j: int| 0 <= j < entries.len() && entries[j] == here[i];
            assert(entries[j].key.encoding() == key);
        }
        if listed(entries, key, value) {
            let j = choose|j: int|
                0 <= j < entries.len() && (#[trigger] entries[j]).key.encoding() == key
                    && entries[j].value.encoding() == value;
            let slot = bucket(entries[j].path_hash@, depth);
            bucket_range(entries[j].path_hash@, depth);
            let here = in_slot(entries, depth, slot);
            assert(made(slot));
            slot_members(entries, depth, slot);
            disjoint_slots(node.datamap, node.nodemap, slot);
            assert(here.contains(entries[j]));
            let i = choose|i: int| 0 <= i < here.len() && here[i] == entries[j];
            assert(here[i].key.encoding() == key);
            if here.len() >= 2 {
                let child = node_at(node.child(slot), store);
                assert(listed(here, key, value));
                assert(holds(child, store, key, value, depth + 1));
            }
            slot_in_node(node, store, key, value, depth, slot);
        }
    }
}

/// A filter that keeps the first two items keeps at least two.
proof fn two_kept<T>(items: Seq<T>, pred: spec_fn(T) -> bool)
    requires
        items.len() >= 2,
        pred(items[0]),
        pred(items[1]),
    ensures
        items.filter(pred).len() >= 2,
    decreases items.len(),
{
    reveal(Seq::filter);
    if items.len() > 2 {
        two_kept(items.drop_last(), pred);
    } else {
        assert(items.drop_last().last() == items[0]);
        assert(items.drop_last().drop_last().filter(pred).len() == 0);
        assert(items.drop_last().filter(pred).len() == 1);
    }
}

/// Sorts entries into the slots of a depth, each in order.
fn fill_buckets<K: HamtCodec, V: HamtCodec>(entries: Vec<BuildEntry<K, V>>, depth: usize) -> (buckets:
    Vec<Vec<BuildEntry<K, V>>>)
    requires
        depth < 52,
    ensures
        buckets@.len() == 32,
        forall|slot: int|
            0 <= slot < 32 ==> (#[trigger] buckets@[slot])@ == in_slot(
                entries@,
                depth as nat,
                slot,
            ),
{
    let ghost all = entries@;
    let mut buckets: Vec<Vec<BuildEntry<K, V>>> = Vec::new();
    let mut made: usize = 0;
    while made < HAMT_BRANCH_FACTOR
        invariant
            made <= HAMT_BRANCH_FACTOR,
            buckets@.len() == made,
            forall|slot: int| 0 <= slot < made ==> (#[trigger] buckets@[slot])@.len() == 0,
        decreases HAMT_BRANCH_FACTOR - made,
    {
        buckets.push(Vec::new());
        made = made + 1;
    }
    let mut pending: Vec<BuildEntry<K, V>> = reversed(entries);
    proof {
        assert forall|slot: int| 0 <= slot < 32 implies (#[trigger] buckets@[slot])@ == in_slot(
            all.take(0),
            depth as nat,
            slot,
        ) by {
            assert(all.take(0).len() == 0);
            assert(buckets@[slot]@ =~= in_slot(all.take(0), depth as nat, slot));
        }
    }
    while pending.len() > 0
        invariant
            depth < 52,
            buckets@.len() == 32,
            pending@.len() <= all.len(),
            forall|i: int|
                0 <= i < pending@.len() ==> #[trigger] pending@[i] == all[all.len() - 1 - i],
            forall|slot: int|
                0 <= slot < 32 ==> (#[trigger] buckets@[slot])@ == in_slot(
                    all.take(all.len() - pending@.len()),
                    depth as nat,
                    slot,
                ),
        decreases pending.len(),
    {
        let ghost taken = all.take(all.len() - pending@.len());
        let ghost next = all.take(all.len() - pending@.len() + 1);
        let ghost before = buckets@;
        match pending.pop() {
            Some(entry) => {
                let slot: usize = bucket_index(&entry.path_hash, depth);
                proof {
                    assert(next.drop_last() =~= taken);
                    assert(next.last() == entry);
                    assert forall|t: int| 0 <= t < 32 implies #[trigger] in_slot(
                        next,
                        depth as nat,
                        t,
                    ) == if t == slot {
                        in_slot(taken, depth as nat, t).push(entry)
                    } else {
                        in_slot(taken, depth as nat, t)
                    } by {
                        reveal(Seq::filter);
                        let pred = |e: BuildEntry<K, V>| bucket(e.path_hash@, depth as nat) == t;
                        assert(next.filter(pred) == if pred(next.last()) {
                            next.drop_last().filter(pred).push(next.last())
                        } else {
                            next.drop_last().filter(pred)
                        });
                    }
                }
                buckets[slot].push(entry);
                proof {
                    assert forall|t: int| 0 <= t < 32 implies (#[trigger] buckets@[t])@ == in_slot(
                        next,
                        depth as nat,
                        t,
                    ) by {
                        assert(before[t]@ == in_slot(taken, depth as nat, t));
                    }
                }
            },
            None => {},
        }
    }
    proof {
        assert(all.take(all.len() - pending@.len()) =~= all);
    }
    buckets
}

/// Builds the node at a depth from its entries.
pub(crate) fn build_node<K: HamtCodec, V: HamtCodec>(
    structural_key: &[u8],
    entries: Vec<BuildEntry<K, V>>,
    depth: usize,
) -> (result: Result<Arc<HamtNode<K, V>>, HamtBuildError>)
    requires
        entries_encodable(entries@),
    ensures
        match result {
            Ok(node) => {
                &&& depth < 52
                &&& collision(entries@, depth as nat, 0) is None
                &&& built(*node, entries@, structural_key@, depth as nat)
            },
            Err(HamtBuildError::HashCollision { depth: at, bucket_size }) => collision(
                entries@,
                depth as nat,
                0,
            ) == Some((at as nat, bucket_size as nat)),
        },
    decreases 52 - depth,
{
    if depth >= HAMT_MAX_DEPTH {
        return Err(HamtBuildError::HashCollision { depth, bucket_size: entries.len() });
    }
    let ghost all = entries@;
    let mut buckets: Vec<Vec<BuildEntry<K, V>>> = reversed(fill_buckets(entries, depth));
    let mut datamap: u32 = 0;
    let mut nodemap: u32 = 0;
    let mut leaves: Vec<(K, V)> = Vec::new();
    let mut children: Vec<NodeRef<K, V>> = Vec::new();
    let mut slot: usize = 0;
    proof {
        rank_zero(32);
        assert forall|t: int| 0 <= t < 32 implies !#[trigger] slot_set(0, t) by {
            slot_updates(0, t, t);
        }
        assert(0u32 & 0u32 == 0) by (bit_vector);
    }
    while slot < HAMT_BRANCH_FACTOR
        invariant
            slot <= HAMT_BRANCH_FACTOR,
            depth < 52,
            all == entries@,
            entries_encodable(all),
            buckets@.len() == 32 - slot,
            forall|i: int|
                0 <= i < buckets@.len() ==> (#[trigger] buckets@[i])@ == in_slot(
                    all,
                    depth as nat,
                    31 - i,
                ),
            datamap & nodemap == 0,
            leaves@.len() == rank(datamap, 32),
            children@.len() == rank(nodemap, 32),
            leaves_encodable(leaves@),
            depth == 51 ==> nodemap == 0,
            forall|t: int| slot <= t < 32 ==> !#[trigger] slot_set(datamap, t),
            forall|t: int| slot <= t < 32 ==> !#[trigger] slot_set(nodemap, t),
            forall|t: int|
                0 <= t < slot ==> #[trigger] slot_built(
                    datamap,
                    nodemap,
                    leaves@,
                    children@,
                    in_slot(all, depth as nat, t),
                    structural_key@,
                    depth as nat,
                    t,
                ),
            collision(all, depth as nat, 0) == collision(all, depth as nat, slot as nat),
        decreases HAMT_BRANCH_FACTOR - slot,
    {
        let ghost here = in_slot(all, depth as nat, slot as int);
        proof {
            slot_members(all, depth as nat, slot as int);
            assert(buckets@[buckets@.len() - 1]@ == here);
        }
        let ghost rest = collision(all, depth as nat, (slot + 1) as nat);
        proof {
            assert(collision(all, depth as nat, slot as nat) == if here.len() < 2 {
                rest
            } else if depth + 1 >= 52 {
                Some((depth as nat, here.len()))
            } else {
                match collision(here, (depth + 1) as nat, 0) {
                    Some(found) => Some(found),
                    None => rest,
                }
            });
        }
        let mut group: Vec<BuildEntry<K, V>> = match buckets.pop() {
            Some(group) => group,
            None => Vec::new(),
        };
        let ghost old_data = datamap;
        let ghost old_node = nodemap;
        let ghost old_leaves = leaves@;
        let ghost old_children = children@;
        let bit: u32 = 1u32 << (slot as u32);
        if group.len() == 1 {
            datamap = datamap | bit;
            match group.pop() {
                Some(entry) => {
                    proof {
                        inserted_at(old_data, slot as int, old_leaves, (entry.key, entry.value));
                        rank_tail(old_data, slot as int);
                        assert(here[0] == entry);
                    }
                    leaves.push((entry.key, entry.value));
                    proof {
                        disjoint_updates(old_data, nodemap, slot as int);
                        assert(old_leaves.insert(
                            rank(old_data, slot as int) as int,
                            (entry.key, entry.value),
                        ) =~= leaves@);
                    }
                },
                None => {},
            }
        } else if group.len() >= 2 {
            if depth + 1 >= HAMT_MAX_DEPTH {
                return Err(HamtBuildError::HashCollision { depth, bucket_size: group.len() });
            }
            nodemap = nodemap | bit;
            let child: Arc<HamtNode<K, V>> = match build_node(structural_key, group, depth + 1) {
                Ok(child) => child,
                Err(error) => {
                    return Err(error);
                },
            };
            proof {
                inserted_at(old_node, slot as int, old_children, NodeRef::Resolved(child));
                rank_tail(old_node, slot as int);
            }
            children.push(NodeRef::Resolved(child));
            proof {
                disjoint_updates(datamap, old_node, slot as int);
                assert(old_children.insert(
                    rank(old_node, slot as int) as int,
                    NodeRef::Resolved(child),
                ) =~= children@);
            }
        }
        proof {
            assert forall|t: int| 0 <= t < slot + 1 implies #[trigger] slot_built(
                datamap,
                nodemap,
                leaves@,
                children@,
                in_slot(all, depth as nat, t),
                structural_key@,
                depth as nat,
                t,
            ) by {
                if t < slot {
                    assert(slot_built(
                        old_data,
                        old_node,
                        old_leaves,
                        old_children,
                        in_slot(all, depth as nat, t),
                        structural_key@,
                        depth as nat,
                        t,
                    ));
                    assert(slot_set(datamap, t) == slot_set(old_data, t));
                    assert(slot_set(nodemap, t) == slot_set(old_node, t));
                    if slot_set(old_data, t) {
                        rank_monotone(old_data, t + 1, 32);
                        rank_monotone(datamap, t + 1, 32);
                    }
                    if slot_set(old_node, t) {
                        rank_monotone(old_node, t + 1, 32);
                        rank_monotone(nodemap, t + 1, 32);
                    }
                } else {
                    if here.len() == 1 {
                        rank_monotone(datamap, t + 1, 32);
                    }
                    if here.len() >= 2 {
                        rank_monotone(nodemap, t + 1, 32);
                    }
                }
            }
        }
        slot = slot + 1;
    }
    let node: Arc<HamtNode<K, V>> = rebuild_node(
        structural_key,
        datamap,
        nodemap,
        leaves,
        children,
    );
    proof {
        assert(built(*node, all, structural_key@, depth as nat)) by {
            built_from_slots(*node, all, structural_key@, depth as nat);
        }
    }
    Ok(node)
}

/// With no marks from a slot on, every mark is below the slot.
proof fn rank_tail(bitmap: u32, slot: int)
    requires
        0 <= slot <= 32,
        forall|t: int| slot <= t < 32 ==> !#[trigger] slot_set(bitmap, t),
    ensures
        rank(bitmap, slot) == rank(bitmap, 32),
    decreases 32 - slot,
{
    if slot < 32 {
        rank_tail(bitmap, slot + 1);
        assert(rank(bitmap, slot + 1) == rank(bitmap, slot));
    }
}

/// Two routes take the same slots from a depth on.
pub open spec fn same_path(a: Seq<u8>, b: Seq<u8>, depth: nat) -> bool {
    forall|d: nat| depth <= d < 52 ==> #[trigger] bucket(a, d) == bucket(b, d)
}

/// Two entries whose routes agree from a depth on, in slots from `slot` on.
pub open spec fn colliding<K, V>(
    entries: Seq<BuildEntry<K, V>>,
    depth: nat,
    slot: nat,
    i: int,
    j: int,
) -> bool {
    &&& 0 <= i < j < entries.len()
    &&& same_path(entries[i].path_hash@, entries[j].path_hash@, depth)
    &&& bucket(entries[i].path_hash@, depth) >= slot
}

/// Where an item of a list stands among the items that a filter keeps.
spec fn kept_before<T>(items: Seq<T>, pred: spec_fn(T) -> bool, n: int) -> int {
    items.take(n).filter(pred).len() as int
}

proof fn kept_item<T>(items: Seq<T>, pred: spec_fn(T) -> bool, n: int)
    requires
        0 <= n < items.len(),
        pred(items[n]),
    ensures
        0 <= kept_before(items, pred, n) < items.filter(pred).len(),
        items.filter(pred)[kept_before(items, pred, n)] == items[n],
        forall|m: int|
            n < m < items.len() ==> kept_before(items, pred, n) < #[trigger] kept_before(
                items,
                pred,
                m,
            ),
    decreases items.len(),
{
    reveal(Seq::filter);
    let front = items.drop_last();
    if n < front.len() {
        assert(front[n] == items[n]);
        kept_item(front, pred, n);
        assert(front.take(n) =~= items.take(n));
        assert forall|m: int| n < m < items.len() implies kept_before(items, pred, n)
            < #[trigger] kept_before(items, pred, m) by {
            if m < front.len() {
                assert(front.take(m) =~= items.take(m));
                assert(kept_before(front, pred, m) == kept_before(items, pred, m));
            } else {
                assert(items.take(m) =~= front);
            }
        }
    } else {
        assert(items.take(n) =~= front);
    }
}

proof fn kept_from<T>(items: Seq<T>, pred: spec_fn(T) -> bool, k: int) -> (n: int)
    requires
        0 <= k < items.filter(pred).len(),
    ensures
        0 <= n < items.len(),
        pred(items[n]),
        items.filter(pred)[k] == items[n],
        kept_before(items, pred, n) == k,
    decreases items.len(),
{
    reveal(Seq::filter);
    let front = items.drop_last();
    if k < front.filter(pred).len() {
        let n = kept_from(front, pred, k);
        assert(front.take(n) =~= items.take(n));
        assert(front[n] == items[n]);
        n
    } else {
        assert(items.take(items.len() - 1) =~= front);
        items.len() - 1
    }
}

/// Building fails exactly where two routes agree down to the last level.
pub proof fn collision_exact<K, V>(entries: Seq<BuildEntry<K, V>>, depth: nat, slot: nat)
    requires
        depth < 52,
        slot <= 32,
    ensures
        collision(entries, depth, slot) is Some <==> exists|i: int, j: int|
            colliding(entries, depth, slot, i, j),
    decreases 52 - depth, 32 - slot,
{
    if slot >= 32 {
        assert forall|i: int, j: int| !colliding(entries, depth, slot, i, j) by {
            bucket_range(entries[i].path_hash@, depth);
        }
    } else {
        let pred = |e: BuildEntry<K, V>| bucket(e.path_hash@, depth) == slot;
        let next: nat = slot + 1;
        let below: nat = depth + 1;
        let here = in_slot(entries, depth, slot as int);
        assert(here == entries.filter(pred));
        collision_exact(entries, depth, next);
        if depth + 1 < 52 {
            collision_exact(here, below, 0);
        }
        if collision(entries, depth, slot) is Some {
            if collision(entries, depth, next) is Some {
                let (i, j) = choose|i: int, j: int| colliding(entries, depth, next, i, j);
                assert(colliding(entries, depth, slot, i, j));
            } else {
                assert(here.len() >= 2);
                let (a, b) = if depth + 1 < 52 {
                    choose|i: int, j: int| colliding(here, below, 0, i, j)
                } else {
                    (0int, 1int)
                };
                let i = kept_from(entries, pred, a);
                let j = kept_from(entries, pred, b);
                if j < i {
                    kept_item(entries, pred, j);
                    assert(kept_before(entries, pred, j) < kept_before(entries, pred, i));
                }
                assert forall|d: nat| depth <= d < 52 implies #[trigger] bucket(
                    entries[i].path_hash@,
                    d,
                ) == bucket(entries[j].path_hash@, d) by {
                    if d > depth {
                        assert(same_path(here[a].path_hash@, here[b].path_hash@, below));
                    }
                }
                assert(colliding(entries, depth, slot, i, j));
            }
        }
        if exists|i: int, j: int| colliding(entries, depth, slot, i, j) {
            let (i, j) = choose|i: int, j: int| colliding(entries, depth, slot, i, j);
            assert(bucket(entries[i].path_hash@, depth) == bucket(entries[j].path_hash@, depth));
            if bucket(entries[i].path_hash@, depth) == slot {
                kept_item(entries, pred, i);
                kept_item(entries, pred, j);
                let a = kept_before(entries, pred, i);
                let b = kept_before(entries, pred, j);
                assert(a < b);
                if depth + 1 < 52 {
                    bucket_range(here[a].path_hash@, below);
                    assert(same_path(here[a].path_hash@, here[b].path_hash@, below));
                    assert(colliding(here, below, 0, a, b));
                }
            } else {
                assert(colliding(entries, depth, next, i, j));
            }
        }
    }
}

/// The bits of two neighbouring bytes in a slot that begins in the first one.
proof fn straddled(low: int, high: int)
    requires
        0 <= low < 256,
        0 <= high < 256,
    ensures
        (low + 256 * high) % 32 == low % 32,
        ((low + 256 * high) / 2) % 32 == (low / 2) % 32,
        ((low + 256 * high) / 4) % 32 == (low / 4) % 32,
        ((low + 256 * high) / 8) % 32 == low / 8,
        ((low + 256 * high) / 32) % 32 == low / 32 + 8 * (high % 4),
        ((low + 256 * high) / 128) % 32 == low / 128 + 2 * (high % 16),
        ((low + 256 * high) / 16) % 32 == low / 16 + 16 * (high % 2),
        ((low + 256 * high) / 64) % 32 == low / 64 + 4 * (high % 8),
{
    let x: u32 = low as u32;
    let y: u32 = high as u32;
    assert((x + 256 * y) % 32 == x % 32 && ((x + 256 * y) / 2) % 32 == (x / 2) % 32 && ((x + 256
        * y) / 4) % 32 == (x / 4) % 32 && ((x + 256 * y) / 8) % 32 == x / 8 && ((x + 256 * y) / 32)
        % 32 == x / 32 + 8 * (y % 4) && ((x + 256 * y) / 128) % 32 == x / 128 + 2 * (y % 16) && ((x
        + 256 * y) / 16) % 32 == x / 16 + 16 * (y % 2) && ((x + 256 * y) / 64) % 32 == x / 64 + 4
        * (y % 8)) by (bit_vector)
        requires
            x < 256,
            y < 256,
    ;
}

/// The eight slots that the bits of five bytes fill.
proof fn slots_of_five(path: Seq<u8>, group: nat)
    requires
        path.len() == 32,
        group < 6,
    ensures
        ({
            let d: nat = 8 * group;
            let at = 5 * group as int;
            &&& bucket(path, d) == path[at] % 32
            &&& bucket(path, d + 1) == path[at] / 32 + 8 * (path[at + 1] % 4)
            &&& bucket(path, d + 2) == (path[at + 1] / 4) % 32
            &&& bucket(path, d + 3) == path[at + 1] / 128 + 2 * (path[at + 2] % 16)
            &&& bucket(path, d + 4) == path[at + 2] / 16 + 16 * (path[at + 3] % 2)
            &&& bucket(path, d + 5) == (path[at + 3] / 2) % 32
            &&& bucket(path, d + 6) == path[at + 3] / 64 + 4 * (path[at + 4] % 8)
            &&& bucket(path, d + 7) == path[at + 4] / 8
        }),
{
    lemma2_to64();
    let d: nat = 8 * group;
    let at = 5 * group as int;
    straddled(path[at] as int, path[at + 1] as int);
    straddled(path[at + 1] as int, path[at + 2] as int);
    straddled(path[at + 2] as int, path[at + 3] as int);
    straddled(path[at + 3] as int, path[at + 4] as int);
    straddled(path[at + 4] as int, path[at + 5] as int);
    assert(5 * d / 8 == at && 5 * d % 8 == 0);
    assert(5 * (d + 1) / 8 == at && 5 * (d + 1) % 8 == 5);
    assert(5 * (d + 2) / 8 == at + 1 && 5 * (d + 2) % 8 == 2);
    assert(5 * (d + 3) / 8 == at + 1 && 5 * (d + 3) % 8 == 7);
    assert(5 * (d + 4) / 8 == at + 2 && 5 * (d + 4) % 8 == 4);
    assert(5 * (d + 5) / 8 == at + 3 && 5 * (d + 5) % 8 == 1);
    assert(5 * (d + 6) / 8 == at + 3 && 5 * (d + 6) % 8 == 6);
    assert(5 * (d + 7) / 8 == at + 4 && 5 * (d + 7) % 8 == 3);
}

/// The parts of five bytes determine the bytes.
proof fn bytes_from_parts(
    a0: u32,
    a1: u32,
    a2: u32,
    a3: u32,
    a4: u32,
    b0: u32,
    b1: u32,
    b2: u32,
    b3: u32,
    b4: u32,
)
    requires
        a0 < 256,
        a1 < 256,
        a2 < 256,
        a3 < 256,
        a4 < 256,
        b0 < 256,
        b1 < 256,
        b2 < 256,
        b3 < 256,
        b4 < 256,
        a0 % 32 == b0 % 32,
        a0 / 32 + 8 * (a1 % 4) == b0 / 32 + 8 * (b1 % 4),
        (a1 / 4) % 32 == (b1 / 4) % 32,
        a1 / 128 + 2 * (a2 % 16) == b1 / 128 + 2 * (b2 % 16),
        a2 / 16 + 16 * (a3 % 2) == b2 / 16 + 16 * (b3 % 2),
        (a3 / 2) % 32 == (b3 / 2) % 32,
        a3 / 64 + 4 * (a4 % 8) == b3 / 64 + 4 * (b4 % 8),
        a4 / 8 == b4 / 8,
    ensures
        a0 == b0,
        a1 == b1,
        a2 == b2,
        a3 == b3,
        a4 == b4,
{
    assert(a0 == b0 && a1 == b1 && a2 == b2 && a3 == b3 && a4 == b4) by (bit_vector)
        requires
            a0 < 256,
            a1 < 256,
            a2 < 256,
            a3 < 256,
            a4 < 256,
            b0 < 256,
            b1 < 256,
            b2 < 256,
            b3 < 256,
            b4 < 256,
            a0 % 32 == b0 % 32,
            a0 / 32 + 8 * (a1 % 4) == b0 / 32 + 8 * (b1 % 4),
            (a1 / 4) % 32 == (b1 / 4) % 32,
            a1 / 128 + 2 * (a2 % 16) == b1 / 128 + 2 * (b2 % 16),
            a2 / 16 + 16 * (a3 % 2) == b2 / 16 + 16 * (b3 % 2),
            (a3 / 2) % 32 == (b3 / 2) % 32,
            a3 / 64 + 4 * (a4 % 8) == b3 / 64 + 4 * (b4 % 8),
            a4 / 8 == b4 / 8,
    ;
}

/// Eight slots hold the bits of five bytes.
proof fn five_bytes(a: Seq<u8>, b: Seq<u8>, group: nat)
    requires
        a.len() == 32,
        b.len() == 32,
        group < 6,
        same_path(a, b, 0),
    ensures
        forall|i: int| 5 * group <= i < 5 * group + 5 ==> #[trigger] a[i] == b[i],
{
    let d: nat = 8 * group;
    let at = 5 * group as int;
    slots_of_five(a, group);
    slots_of_five(b, group);
    assert(bucket(a, d) == bucket(b, d));
    assert(bucket(a, d + 1) == bucket(b, d + 1));
    assert(bucket(a, d + 2) == bucket(b, d + 2));
    assert(bucket(a, d + 3) == bucket(b, d + 3));
    assert(bucket(a, d + 4) == bucket(b, d + 4));
    assert(bucket(a, d + 5) == bucket(b, d + 5));
    assert(bucket(a, d + 6) == bucket(b, d + 6));
    assert(bucket(a, d + 7) == bucket(b, d + 7));
    bytes_from_parts(
        a[at] as u32,
        a[at + 1] as u32,
        a[at + 2] as u32,
        a[at + 3] as u32,
        a[at + 4] as u32,
        b[at] as u32,
        b[at + 1] as u32,
        b[at + 2] as u32,
        b[at + 3] as u32,
        b[at + 4] as u32,
    );
    assert forall|i: int| 5 * group <= i < 5 * group + 5 implies #[trigger] a[i] == b[i] by {
        assert(i == at || i == at + 1 || i == at + 2 || i == at + 3 || i == at + 4);
    }
}

/// The last four slots hold the bits of the last two bytes.
proof fn slots_of_last(path: Seq<u8>)
    requires
        path.len() == 32,
    ensures
        bucket(path, 48) == path[30] % 32,
        bucket(path, 49) == path[30] / 32 + 8 * (path[31] % 4),
        bucket(path, 50) == (path[31] / 4) % 32,
        bucket(path, 51) == path[31] / 128,
{
    lemma2_to64();
    straddled(path[30] as int, path[31] as int);
    straddled(path[31] as int, 0);
    assert(bucket(path, 48) == ((path[30] as int + 256 * path[31] as int) / 1) % 32);
}

/// Routes that take the same slots at every level are the same hash.
pub proof fn same_path_is_same_hash(a: Seq<u8>, b: Seq<u8>)
    requires
        a.len() == 32,
        b.len() == 32,
    ensures
        same_path(a, b, 0) <==> a == b,
{
    if same_path(a, b, 0) {
        assert forall|i: int| 0 <= i < 30 implies #[trigger] a[i] == b[i] by {
            five_bytes(a, b, (i / 5) as nat);
        }
        slots_of_last(a);
        slots_of_last(b);
        assert(bucket(a, 48) == bucket(b, 48));
        assert(bucket(a, 49) == bucket(b, 49));
        assert(a[30] == b[30]);
        assert(bucket(a, 50) == bucket(b, 50));
        assert(bucket(a, 51) == bucket(b, 51));
        assert(a[31] == b[31]);
        assert(a =~= b);
    }
}

/// A collision shows at the last level, between two entries or more.
proof fn collision_at_last_level<K, V>(entries: Seq<BuildEntry<K, V>>, depth: nat, slot: nat)
    requires
        depth < 52,
    ensures
        collision(entries, depth, slot) matches Some((at, size)) ==> at == 51 && size >= 2,
    decreases 52 - depth, 32 - slot,
{
    if slot < 32 {
        collision_at_last_level(entries, depth, slot + 1);
        if depth + 1 < 52 {
            collision_at_last_level(in_slot(entries, depth, slot as int), depth + 1, 0);
        }
    }
}

/// Entries with their routing hashes.
pub open spec fn path_entries<K, V>(
    entries: Seq<(K, V)>,
    paths: Seq<StructuralHash>,
) -> Seq<BuildEntry<K, V>> {
    Seq::new(
        entries.len(),
        |i: int| BuildEntry { key: entries[i].0, value: entries[i].1, path_hash: paths[i] },
    )
}

/// What building a trie from entries with routing hashes returns.
pub open spec fn build_outcome<K: HamtCodec, V: HamtCodec>(
    entries: Seq<BuildEntry<K, V>>,
    structural_key: Seq<u8>,
    result: Result<Arc<HamtNode<K, V>>, HamtBuildError>,
) -> bool {
    match result {
        Ok(node) => {
            &&& collision(entries, 0, 0) is None
            &&& built(*node, entries, structural_key, 0)
        },
        Err(HamtBuildError::HashCollision { depth, bucket_size }) => collision(entries, 0, 0)
            == Some((depth as nat, bucket_size as nat)),
    }
}

/// Two entries with the same routing hash.
pub open spec fn same_hash<K, V>(entries: Seq<BuildEntry<K, V>>, i: int, j: int) -> bool {
    0 <= i < j < entries.len() && entries[i].path_hash@ == entries[j].path_hash@
}

/// Building fails exactly where two entries have the same routing hash, and then
/// at the last level, in a slot with two entries or more.
pub proof fn build_fails_on_same_hash<K: HamtCodec, V: HamtCodec>(
    entries: Seq<BuildEntry<K, V>>,
    structural_key: Seq<u8>,
    result: Result<Arc<HamtNode<K, V>>, HamtBuildError>,
)
    requires
        build_outcome(entries, structural_key, result),
    ensures
        result is Err <==> exists|i: int, j: int| same_hash(entries, i, j),
        result matches Err(HamtBuildError::HashCollision { depth, bucket_size }) ==> depth == 51
            && bucket_size >= 2,
{
    collision_exact(entries, 0, 0);
    collision_at_last_level(entries, 0, 0);
    if exists|i: int, j: int| colliding(entries, 0, 0, i, j) {
        let (i, j) = choose|i: int, j: int| colliding(entries, 0, 0, i, j);
        same_path_is_same_hash(entries[i].path_hash@, entries[j].path_hash@);
        assert(same_hash(entries, i, j));
    }
    if exists|i: int, j: int| same_hash(entries, i, j) {
        let (i, j) = choose|i: int, j: int| same_hash(entries, i, j);
        same_path_is_same_hash(entries[i].path_hash@, entries[j].path_hash@);
        bucket_range(entries[i].path_hash@, 0);
        assert(colliding(entries, 0, 0, i, j));
    }
}

/// Builds a full trie from key/value entries using a custom per-key path hash
/// function.
///
/// Callers that build a tree with this function must use the lookup and
/// mutation functions that take a key hash or a path hash. This is the most
/// general builder entry point.
///
/// # Errors
/// Returns `HamtBuildError::HashCollision` if the input exhausts the available
/// trie depth before entries can be separated into distinct slots.
pub fn build_hamt_with_key_hash<K: HamtCodec, V: HamtCodec, F: FnMut(&K) -> StructuralHash>(
    structural_key: &[u8],
    entries: Vec<(K, V)>,
    mut key_hash: F,
) -> (result: Result<Arc<HamtNode<K, V>>, HamtBuildError>)
    requires
        leaves_encodable(entries@),
        routing_total::<K, F>(key_hash),
    ensures
        exists|paths: Seq<StructuralHash>|
            {
                &&& paths.len() == entries@.len()
                &&& forall|i: int|
                    0 <= i < entries@.len() ==> call_ensures(
                        key_hash,
                        (&entries@[i].0,),
                        #[trigger] paths[i],
                    )
                &&& #[trigger] build_outcome(
                    path_entries(entries@, paths),
                    structural_key@,
                    result,
                )
            },
{
    let ghost all = entries@;
    let ghost hasher = key_hash;
    let mut pending: Vec<(K, V)> = reversed(entries);
    let mut routed_entries: Vec<BuildEntry<K, V>> = Vec::new();
    let ghost mut paths: Seq<StructuralHash> = Seq::empty();
    while pending.len() > 0
        invariant
            leaves_encodable(all),
            key_hash == hasher,
            routing_total::<K, F>(hasher),
            routed_entries@.len() + pending@.len() == all.len(),
            paths.len() == routed_entries@.len(),
            forall|i: int|
                0 <= i < pending@.len() ==> #[trigger] pending@[i] == all[all.len() - 1 - i],
            forall|i: int|
                0 <= i < paths.len() ==> call_ensures(hasher, (&all[i].0,), #[trigger] paths[i]),
            forall|i: int|
                0 <= i < paths.len() ==> #[trigger] routed_entries@[i] == (BuildEntry {
                    key: all[i].0,
                    value: all[i].1,
                    path_hash: paths[i],
                }),
        decreases pending.len(),
    {
        match pending.pop() {
            Some(entry) => {
                proof {
                    assert(entry == all[routed_entries@.len() as int]);
                }
                let path_hash: StructuralHash = key_hash(&entry.0);
                proof {
                    paths = paths.push(path_hash);
                }
                routed_entries.push(
                    BuildEntry { key: entry.0, value: entry.1, path_hash },
                );
            },
            None => {},
        }
    }
    proof {
        assert(routed_entries@ =~= path_entries(all, paths));
        assert forall|i: int| 0 <= i < routed_entries@.len() implies (
        #[trigger] routed_entries@[i]).key.encodable() && routed_entries@[i].value.encodable() by {
            assert(all[i].0.encodable());
        }
    }
    let result: Result<Arc<HamtNode<K, V>>, HamtBuildError> = build_node(
        structural_key,
        routed_entries,
        0,
    );
    proof {
        assert(build_outcome(path_entries(all, paths), structural_key@, result));
    }
    result
}

/// Two entries whose keys have the same route.
pub open spec fn routes_collide<K: HamtCodec, V>(
    entries: Seq<(K, V)>,
    route: spec_fn(Seq<u8>) -> Seq<u8>,
    i: int,
    j: int,
) -> bool {
    &&& 0 <= i < j < entries.len()
    &&& route(entries[i].0.encoding()) == route(entries[j].0.encoding())
}

/// The entries hold the key with the value.
pub open spec fn pair_listed<K: HamtCodec, V: HamtCodec>(
    entries: Seq<(K, V)>,
    key: Seq<u8>,
    value: Seq<u8>,
) -> bool {
    exists|i: int|
        0 <= i < entries.len() && (#[trigger] entries[i]).0.encoding() == key
            && entries[i].1.encoding() == value
}

/// The node is a canonical trie of exactly the entries, with nothing left to
/// be loaded.
pub open spec fn trie_of<K: HamtCodec, V: HamtCodec>(
    node: HamtNode<K, V>,
    entries: Seq<(K, V)>,
    route: spec_fn(Seq<u8>) -> Seq<u8>,
    structural_key: Seq<u8>,
) -> bool {
    &&& forall|
        load: spec_fn(StructuralHash, HamtNode<K, V>) -> bool,
        store: spec_fn(StructuralHash) -> HamtNode<K, V>,
    | #[trigger]
        readable(load, store, node, 52)
    &&& forall|store: spec_fn(StructuralHash) -> HamtNode<K, V>| #[trigger]
        canonical(node, store, route, structural_key, 0)
    &&& forall|
        store: spec_fn(StructuralHash) -> HamtNode<K, V>,
        key: Seq<u8>,
        value: Seq<u8>,
    | #[trigger]
        holds(node, store, key, value, 0) <==> pair_listed(entries, key, value)
}

/// Building along a route succeeds exactly where no two keys have the same route,
/// and then gives the trie of the entries.
pub proof fn build_along_route<K: HamtCodec, V: HamtCodec>(
    entries: Seq<(K, V)>,
    paths: Seq<StructuralHash>,
    route: spec_fn(Seq<u8>) -> Seq<u8>,
    structural_key: Seq<u8>,
    result: Result<Arc<HamtNode<K, V>>, HamtBuildError>,
)
    requires
        paths.len() == entries.len(),
        forall|i: int|
            0 <= i < entries.len() ==> (#[trigger] paths[i])@ == route(entries[i].0.encoding()),
        build_outcome(path_entries(entries, paths), structural_key, result),
    ensures
        result is Ok <==> forall|i: int, j: int| !routes_collide(entries, route, i, j),
        result matches Ok(node) ==> trie_of(*node, entries, route, structural_key),
{
    let all = path_entries(entries, paths);
    build_fails_on_same_hash(all, structural_key, result);
    if exists|i: int, j: int| same_hash(all, i, j) {
        let (i, j) = choose|i: int, j: int| same_hash(all, i, j);
        assert(paths[i]@ == route(entries[i].0.encoding()));
        assert(paths[j]@ == route(entries[j].0.encoding()));
        assert(routes_collide(entries, route, i, j));
    }
    if exists|i: int, j: int| routes_collide(entries, route, i, j) {
        let (i, j) = choose|i: int, j: int| routes_collide(entries, route, i, j);
        assert(paths[i]@ == route(entries[i].0.encoding()));
        assert(paths[j]@ == route(entries[j].0.encoding()));
        assert(same_hash(all, i, j));
    }
    match result {
        Ok(node) => {
            assert(routed(all, route)) by {
                assert forall|i: int| 0 <= i < all.len() implies (#[trigger] all[i]).path_hash@
                    == route(all[i].key.encoding()) by {
                    assert(paths[i]@ == route(entries[i].0.encoding()));
                }
            }
            assert forall|
                store: spec_fn(StructuralHash) -> HamtNode<K, V>,
                key: Seq<u8>,
                value: Seq<u8>,
            | #[trigger] holds(*node, store, key, value, 0) <==> pair_listed(entries, key, value) by {
                if listed(all, key, value) {
                    let i = choose|i: int|
                        0 <= i < all.len() && (#[trigger] all[i]).key.encoding() == key
                            && all[i].value.encoding() == value;
                    assert(entries[i].0.encoding() == key);
                }
                if pair_listed(entries, key, value) {
                    let i = choose|i: int|
                        0 <= i < entries.len() && (#[trigger] entries[i]).0.encoding() == key
                            && entries[i].1.encoding() == value;
                    assert(all[i].key.encoding() == key);
                }
            }
            assert forall|
                load: spec_fn(StructuralHash, HamtNode<K, V>) -> bool,
                store: spec_fn(StructuralHash) -> HamtNode<K, V>,
            | #[trigger] readable(load, store, *node, 52) by {
                let levels: nat = 52;
                assert(levels == (52 - 0nat) as nat);
                assert(readable(load, store, *node, (52 - 0nat) as nat));
            }
        },
        Err(_) => {},
    }
}

/// Builds a full trie from key/value entries.
///
/// The caller supplies the structural key used for subtree hashing. Keys are
/// placed into the trie using a deterministic keyed hash derived from that
/// same secret.
///
/// # Errors
/// Returns `HamtBuildError::HashCollision` if the input exhausts the available
/// trie depth before entries can be separated into distinct slots.
pub fn build_hamt<K: HamtKey, V: HamtCodec>(structural_key: &[u8], entries: Vec<(K, V)>) -> (result:
    Result<Arc<HamtNode<K, V>>, HamtBuildError>)
    requires
        leaves_encodable(entries@),
    ensures
        ({
            let route = default_route::<K>(structural_key@);
            &&& result is Ok <==> forall|i: int, j: int| !routes_collide(entries@, route, i, j)
            &&& result matches Ok(node) ==> trie_of(*node, entries@, route, structural_key@)
            &&& exists|paths: Seq<StructuralHash>|
                {
                    &&& paths.len() == entries@.len()
                    &&& forall|i: int|
                        0 <= i < entries@.len() ==> (#[trigger] paths[i])@ == route(
                            entries@[i].0.encoding(),
                        )
                    &&& #[trigger] build_outcome(
                        path_entries(entries@, paths),
                        structural_key@,
                        result,
                    )
                }
        }),
{
    let ghost all = entries@;
    let ghost route = default_route::<K>(structural_key@);
    let key_hash = |key: &K| -> (hash: StructuralHash)
        requires
            key.encodable(),
        ensures
            hash@ == default_route::<K>(structural_key@)(key.encoding()),
        { key_path_hash(structural_key, key) };
    let ghost hasher = key_hash;
    let result: Result<Arc<HamtNode<K, V>>, HamtBuildError> = build_hamt_with_key_hash(
        structural_key,
        entries,
        key_hash,
    );
    proof {
        let paths = choose|paths: Seq<StructuralHash>|
            {
                &&& paths.len() == all.len()
                &&& forall|i: int|
                    0 <= i < all.len() ==> call_ensures(hasher, (&all[i].0,), #[trigger] paths[i])
                &&& #[trigger] build_outcome(path_entries(all, paths), structural_key@, result)
            };
        assert forall|i: int| 0 <= i < all.len() implies (#[trigger] paths[i])@ == route(
            all[i].0.encoding(),
        ) by {
            assert(call_ensures(hasher, (&all[i].0,), paths[i]));
        }
        build_along_route(all, paths, route, structural_key@, result);
    }
    result
}

/// Builds a root handle for a freshly constructed trie.
///
/// This is a convenience helper for downstream code that already knows the
/// resolved lattice and wants both the tree and the root identity in one call.
///
/// # Errors
/// Returns the same build errors as `build_hamt`.
pub fn build_hamt_root_handle<K: HamtKey, V: HamtCodec>(
    structural_key: &[u8],
    lattice: &LtHash,
    entries: Vec<(K, V)>,
) -> (result: Result<(RootHandle, Arc<HamtNode<K, V>>), HamtBuildError>)
    requires
        leaves_encodable(entries@),
    ensures
        ({
            let route = default_route::<K>(structural_key@);
            &&& result is Ok <==> forall|i: int, j: int| !routes_collide(entries@, route, i, j)
            &&& result matches Ok((handle, node)) ==> {
                &&& trie_of(*node, entries@, route, structural_key@)
                &&& handle.structural_hash == node.structural_hash
                &&& handle.state_group_id@ == lattice.checksum_bytes()
            }
        }),
{
    match build_hamt(structural_key, entries) {
        Ok(root) => {
            let handle: RootHandle = RootHandle::from_lthash(root.structural_hash, lattice);
            Ok((handle, root))
        },
        Err(error) => Err(error),
    }
}

} // verus!
