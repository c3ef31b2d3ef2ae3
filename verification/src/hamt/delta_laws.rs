//! What a comparison of two tries lists: the difference of their entries.

use vstd::prelude::*;
use super::bitmap::{disjoint_slots, rank, rank_monotone, slot_set};
use super::codec::HamtCodec;
use super::construct::{pair_listed, trie_of};
use super::delta::{
    appended, beside, delta_lists, diff_upto, is_copy, leaf_diff, lists_entry, slot_leaf,
    without_entry,
};
use super::hash::StructuralHash;
use super::laws::{diff_symmetric, faithful, faithful_both_ways, in_entries, walk_lists_entries};
use super::node::{
    bucket, bucket_range, canonical, canonical_slot, holds, is_slot, node_at, readable, ref_hash,
    same_entries, HamtNode,
};
use super::slots::same_leaf;
use super::walk::{entries_upto, entry_list};

verus! {

/// The entry has these encodings.
pub open spec fn is_pair<K: HamtCodec, V: HamtCodec>(
    entry: (K, V),
    key: Seq<u8>,
    value: Seq<u8>,
) -> bool {
    entry.0.encoding() == key && entry.1.encoding() == value
}

/// How often a list has an entry with these encodings.
pub open spec fn copies<K: HamtCodec, V: HamtCodec>(
    entries: Seq<(K, V)>,
    key: Seq<u8>,
    value: Seq<u8>,
) -> nat
    decreases entries.len(),
{
    if entries.len() == 0 {
        0
    } else {
        copies(entries.drop_last(), key, value) + once(is_pair(entries.last(), key, value))
    }
}

/// One where the condition holds.
pub open spec fn once(condition: bool) -> nat {
    if condition {
        1
    } else {
        0
    }
}

/// How much the first number exceeds the second.
pub open spec fn excess(a: nat, b: nat) -> nat {
    if a > b {
        (a - b) as nat
    } else {
        0
    }
}

proof fn copies_concat<K: HamtCodec, V: HamtCodec>(
    a: Seq<(K, V)>,
    b: Seq<(K, V)>,
    key: Seq<u8>,
    value: Seq<u8>,
)
    ensures
        copies(a + b, key, value) == copies(a, key, value) + copies(b, key, value),
    decreases b.len(),
{
    if b.len() == 0 {
        assert(a + b =~= a);
    } else {
        assert((a + b).drop_last() =~= a + b.drop_last());
        copies_concat(a, b.drop_last(), key, value);
    }
}

proof fn copies_single<K: HamtCodec, V: HamtCodec>(entry: (K, V), key: Seq<u8>, value: Seq<u8>)
    ensures
        copies(seq![entry], key, value) == once(is_pair(entry, key, value)),
{
    assert(seq![entry].drop_last() =~= Seq::<(K, V)>::empty());
    assert(copies(Seq::<(K, V)>::empty(), key, value) == 0);
}

/// A list has an entry exactly where it has a copy of it.
proof fn copies_listed<K: HamtCodec, V: HamtCodec>(
    entries: Seq<(K, V)>,
    key: Seq<u8>,
    value: Seq<u8>,
)
    ensures
        copies(entries, key, value) > 0 <==> in_entries(entries, key, value),
    decreases entries.len(),
{
    if entries.len() > 0 {
        let short = entries.drop_last();
        copies_listed(short, key, value);
        if in_entries(short, key, value) {
            let i = choose|i: int|
                0 <= i < short.len() && (#[trigger] short[i]).0.encoding() == key
                    && short[i].1.encoding() == value;
            assert(entries[i] == short[i]);
        }
        if in_entries(entries, key, value) && !in_entries(short, key, value) {
            let i = choose|i: int|
                0 <= i < entries.len() && (#[trigger] entries[i]).0.encoding() == key
                    && entries[i].1.encoding() == value;
            if i < short.len() {
                assert(short[i] == entries[i]);
            }
        }
        if is_pair(entries.last(), key, value) {
            assert(entries[entries.len() - 1] == entries.last());
        }
    }
}

/// Copied lists count the same.
proof fn copies_copied<K: HamtCodec, V: HamtCodec>(
    list: Seq<(K, V)>,
    entries: Seq<(K, V)>,
    key: Seq<u8>,
    value: Seq<u8>,
)
    requires
        appended(Seq::empty(), list, entries),
    ensures
        copies(list, key, value) == copies(entries, key, value),
    decreases entries.len(),
{
    let none = Seq::<(K, V)>::empty();
    if entries.len() > 0 {
        let short_list = list.drop_last();
        let short = entries.drop_last();
        assert forall|i: int| 0 <= i < short.len() implies is_copy(
            #[trigger] short[i],
            short_list[none.len() + i],
        ) by {
            assert(is_copy(entries[i], list[none.len() + i]));
        }
        copies_copied(short_list, short, key, value);
        assert(is_copy(entries[entries.len() - 1], list[none.len() + (entries.len() - 1)]));
    }
}

/// Leaving out the first copy of an entry leaves out one copy.
proof fn copies_without<K: HamtCodec, V: HamtCodec>(
    list: Seq<(K, V)>,
    entry: (K, V),
    key: Seq<u8>,
    value: Seq<u8>,
)
    ensures
        copies(without_entry(list, entry), key, value) == excess(
            copies(list, key, value),
            once(is_pair(entry, key, value)),
        ),
        lists_entry(list, entry) <==> in_entries(list, entry.0.encoding(), entry.1.encoding()),
    decreases list.len(),
{
    let (k, v) = (entry.0.encoding(), entry.1.encoding());
    if lists_entry(list, entry) {
        let i = choose|i: int| 0 <= i < list.len() && same_leaf(#[trigger] list[i], entry);
        assert(list[i].0.encoding() == k);
    }
    if in_entries(list, k, v) {
        let i = choose|i: int|
            0 <= i < list.len() && (#[trigger] list[i]).0.encoding() == k && list[i].1.encoding()
                == v;
        assert(same_leaf(list[i], entry));
    }
    if list.len() > 0 {
        let short = list.drop_last();
        copies_without(short, entry, key, value);
        copies_listed(short, k, v);
        let kept = without_entry(short, entry);
        assert(kept.push(list.last()).drop_last() =~= kept);
    }
}

/// What stands beside a leaf counts as the excess on either side.
proof fn copies_beside<K: HamtCodec, V: HamtCodec>(
    list: Seq<(K, V)>,
    leaf: Option<(K, V)>,
    key: Seq<u8>,
    value: Seq<u8>,
)
    ensures
        ({
            let own = copies(list, key, value);
            let other = match leaf {
                Some(leaf) => once(is_pair(leaf, key, value)),
                None => 0,
            };
            &&& copies(beside(list, leaf).0, key, value) == excess(own, other)
            &&& copies(beside(list, leaf).1, key, value) == excess(other, own)
        }),
{
    if leaf is Some {
        let leaf = leaf->0;
        copies_without(list, leaf, key, value);
        copies_listed(list, leaf.0.encoding(), leaf.1.encoding());
        copies_single(leaf, key, value);
    }
}

/// How often the leaf of a slot is the pair.
spec fn leaf_copies<K: HamtCodec, V: HamtCodec>(
    node: HamtNode<K, V>,
    slot: int,
    key: Seq<u8>,
    value: Seq<u8>,
) -> nat {
    once(slot_set(node.datamap, slot) && is_pair(node.leaf(slot), key, value))
}

/// How often the child of a slot has the pair.
spec fn child_copies<K: HamtCodec, V: HamtCodec>(
    node: HamtNode<K, V>,
    store: spec_fn(StructuralHash) -> HamtNode<K, V>,
    levels: nat,
    slot: int,
    key: Seq<u8>,
    value: Seq<u8>,
) -> nat {
    if slot_set(node.nodemap, slot) {
        copies(
            entry_list(node_at(node.child(slot), store), store, (levels - 1) as nat),
            key,
            value,
        )
    } else {
        0
    }
}

/// How often the first leaf slots have the pair.
spec fn leaves_upto<K: HamtCodec, V: HamtCodec>(
    node: HamtNode<K, V>,
    n: nat,
    key: Seq<u8>,
    value: Seq<u8>,
) -> nat
    decreases n,
{
    if n == 0 {
        0
    } else {
        leaves_upto(node, (n - 1) as nat, key, value) + leaf_copies(node, n - 1, key, value)
    }
}

/// How often the first child slots have the pair.
spec fn children_upto<K: HamtCodec, V: HamtCodec>(
    node: HamtNode<K, V>,
    store: spec_fn(StructuralHash) -> HamtNode<K, V>,
    levels: nat,
    n: nat,
    key: Seq<u8>,
    value: Seq<u8>,
) -> nat
    decreases n,
{
    if n == 0 {
        0
    } else {
        children_upto(node, store, levels, (n - 1) as nat, key, value) + child_copies(
            node,
            store,
            levels,
            n - 1,
            key,
            value,
        )
    }
}

proof fn leaves_by_slot<K: HamtCodec, V: HamtCodec>(
    node: HamtNode<K, V>,
    n: nat,
    key: Seq<u8>,
    value: Seq<u8>,
)
    requires
        node.shape(),
        n <= 32,
    ensures
        copies(node.leaves@.take(rank(node.datamap, n as int) as int), key, value) == leaves_upto(
            node,
            n,
            key,
            value,
        ),
    decreases n,
{
    rank_monotone(node.datamap, n as int, 32);
    if n == 0 {
        assert(node.leaves@.take(0) =~= Seq::<(K, V)>::empty());
    } else {
        leaves_by_slot(node, (n - 1) as nat, key, value);
        let before = rank(node.datamap, n - 1) as int;
        if slot_set(node.datamap, n - 1) {
            assert(node.leaves@.take(before + 1).drop_last() =~= node.leaves@.take(before));
        }
    }
}

proof fn children_by_slot<K: HamtCodec, V: HamtCodec>(
    node: HamtNode<K, V>,
    store: spec_fn(StructuralHash) -> HamtNode<K, V>,
    levels: nat,
    n: nat,
    key: Seq<u8>,
    value: Seq<u8>,
)
    requires
        node.shape(),
        levels > 0,
        n <= 32,
    ensures
        copies(
            entries_upto(node, store, levels, rank(node.nodemap, n as int)),
            key,
            value,
        ) == copies(node.leaves@, key, value) + children_upto(node, store, levels, n, key, value),
    decreases n,
{
    rank_monotone(node.nodemap, n as int, 32);
    if n > 0 {
        children_by_slot(node, store, levels, (n - 1) as nat, key, value);
        let before = rank(node.nodemap, n - 1);
        if slot_set(node.nodemap, n - 1) {
            let child = node_at(node.child(n - 1), store);
            assert(node.children@[before as int] == node.child(n - 1));
            copies_concat(
                entries_upto(node, store, levels, before),
                entry_list(child, store, (levels - 1) as nat),
                key,
                value,
            );
        }
    }
}

/// The entries of a node, slot by slot.
proof fn entries_by_slot<K: HamtCodec, V: HamtCodec>(
    node: HamtNode<K, V>,
    store: spec_fn(StructuralHash) -> HamtNode<K, V>,
    levels: nat,
    key: Seq<u8>,
    value: Seq<u8>,
)
    requires
        node.shape(),
        levels > 0,
    ensures
        copies(entry_list(node, store, levels), key, value) == leaves_upto(node, 32, key, value)
            + children_upto(node, store, levels, 32, key, value),
{
    leaves_by_slot(node, 32, key, value);
    children_by_slot(node, store, levels, 32, key, value);
    assert(node.leaves@.take(rank(node.datamap, 32) as int) =~= node.leaves@);
}

/// How often a slot has the pair.
spec fn slot_copies<K: HamtCodec, V: HamtCodec>(
    node: HamtNode<K, V>,
    store: spec_fn(StructuralHash) -> HamtNode<K, V>,
    levels: nat,
    slot: int,
    key: Seq<u8>,
    value: Seq<u8>,
) -> nat {
    leaf_copies(node, slot, key, value) + child_copies(node, store, levels, slot, key, value)
}

/// Only the slot of its route can have a pair.
proof fn other_slots_empty<K: HamtCodec, V: HamtCodec>(
    node: HamtNode<K, V>,
    store: spec_fn(StructuralHash) -> HamtNode<K, V>,
    route: spec_fn(Seq<u8>) -> Seq<u8>,
    structural_key: Seq<u8>,
    depth: nat,
    slot: int,
    key: Seq<u8>,
    value: Seq<u8>,
)
    requires
        canonical(node, store, route, structural_key, depth),
        0 <= slot < 32,
        slot != bucket(route(key), depth),
    ensures
        slot_copies(node, store, (52 - depth) as nat, slot, key, value) == 0,
{
    canonical_slot(node, store, route, structural_key, depth, slot);
    if slot_set(node.nodemap, slot) {
        let child = node_at(node.child(slot), store);
        let below = (52 - (depth + 1)) as nat;
        copies_listed(entry_list(child, store, below), key, value);
        walk_lists_entries(child, store, route, structural_key, depth + 1, key, value);
    }
}

/// The slots below a number, put together: that of the route counts, if it is
/// one of them.
proof fn slots_upto<K: HamtCodec, V: HamtCodec>(
    node: HamtNode<K, V>,
    store: spec_fn(StructuralHash) -> HamtNode<K, V>,
    route: spec_fn(Seq<u8>) -> Seq<u8>,
    structural_key: Seq<u8>,
    depth: nat,
    n: nat,
    key: Seq<u8>,
    value: Seq<u8>,
)
    requires
        canonical(node, store, route, structural_key, depth),
        n <= 32,
    ensures
        leaves_upto(node, n, key, value) + children_upto(
            node,
            store,
            (52 - depth) as nat,
            n,
            key,
            value,
        ) == if bucket(route(key), depth) < n {
            slot_copies(
                node,
                store,
                (52 - depth) as nat,
                bucket(route(key), depth),
                key,
                value,
            )
        } else {
            0
        },
    decreases n,
{
    bucket_range(route(key), depth);
    if n > 0 {
        slots_upto(node, store, route, structural_key, depth, (n - 1) as nat, key, value);
        if n - 1 != bucket(route(key), depth) {
            other_slots_empty(node, store, route, structural_key, depth, n - 1, key, value);
        }
    }
}

/// A canonical trie has an entry once.
pub proof fn copies_once<K: HamtCodec, V: HamtCodec>(
    node: HamtNode<K, V>,
    store: spec_fn(StructuralHash) -> HamtNode<K, V>,
    route: spec_fn(Seq<u8>) -> Seq<u8>,
    structural_key: Seq<u8>,
    depth: nat,
    key: Seq<u8>,
    value: Seq<u8>,
)
    requires
        canonical(node, store, route, structural_key, depth),
    ensures
        copies(entry_list(node, store, (52 - depth) as nat), key, value) == once(
            holds(node, store, key, value, depth),
        ),
    decreases 52 - depth,
{
    let levels = (52 - depth) as nat;
    let slot = bucket(route(key), depth);
    bucket_range(route(key), depth);
    entries_by_slot(node, store, levels, key, value);
    slots_upto(node, store, route, structural_key, depth, 32, key, value);
    canonical_slot(node, store, route, structural_key, depth, slot);
    if slot_set(node.nodemap, slot) {
        let child = node_at(node.child(slot), store);
        disjoint_slots(node.datamap, node.nodemap, slot);
        copies_once(child, store, route, structural_key, depth + 1, key, value);
        assert((52 - (depth + 1)) as nat == (levels - 1) as nat);
    }
    copies_listed(entry_list(node, store, levels), key, value);
    walk_lists_entries(node, store, route, structural_key, depth, key, value);
}

/// What a leaf slot lists as removed.
spec fn leaf_removed<K: HamtCodec, V: HamtCodec>(
    a: HamtNode<K, V>,
    b: HamtNode<K, V>,
    slot: int,
) -> Seq<(K, V)> {
    if slot_set(a.datamap, slot) && !slot_set(b.nodemap, slot) && !(slot_set(b.datamap, slot)
        && same_leaf(a.leaf(slot), b.leaf(slot))) {
        seq![a.leaf(slot)]
    } else {
        Seq::empty()
    }
}

/// What a child slot lists as removed.
spec fn child_removed<K: HamtCodec, V: HamtCodec>(
    a: HamtNode<K, V>,
    b: HamtNode<K, V>,
    store: spec_fn(StructuralHash) -> HamtNode<K, V>,
    levels: nat,
    slot: int,
) -> Seq<(K, V)> {
    let ca = node_at(a.child(slot), store);
    let cb = node_at(b.child(slot), store);
    let below = (levels - 1) as nat;
    if slot_set(a.nodemap, slot) && slot_set(b.nodemap, slot) {
        if ref_hash(a.child(slot)) == ref_hash(b.child(slot)) || ca.structural_hash@
            == cb.structural_hash@ {
            Seq::empty()
        } else {
            diff_upto(ca, cb, store, below, 32).0
        }
    } else if slot_set(a.nodemap, slot) {
        beside(entry_list(ca, store, below), slot_leaf(b, slot)).0
    } else if slot_set(b.nodemap, slot) {
        beside(entry_list(cb, store, below), slot_leaf(a, slot)).1
    } else {
        Seq::empty()
    }
}

/// How often the first leaf slots list the pair as removed.
spec fn leaves_removed<K: HamtCodec, V: HamtCodec>(
    a: HamtNode<K, V>,
    b: HamtNode<K, V>,
    n: nat,
    key: Seq<u8>,
    value: Seq<u8>,
) -> nat
    decreases n,
{
    if n == 0 {
        0
    } else {
        leaves_removed(a, b, (n - 1) as nat, key, value) + copies(
            leaf_removed(a, b, n - 1),
            key,
            value,
        )
    }
}

/// How often the first child slots list the pair as removed.
spec fn children_removed<K: HamtCodec, V: HamtCodec>(
    a: HamtNode<K, V>,
    b: HamtNode<K, V>,
    store: spec_fn(StructuralHash) -> HamtNode<K, V>,
    levels: nat,
    n: nat,
    key: Seq<u8>,
    value: Seq<u8>,
) -> nat
    decreases n,
{
    if n == 0 {
        0
    } else {
        children_removed(a, b, store, levels, (n - 1) as nat, key, value) + copies(
            child_removed(a, b, store, levels, n - 1),
            key,
            value,
        )
    }
}

proof fn leaves_removed_counted<K: HamtCodec, V: HamtCodec>(
    a: HamtNode<K, V>,
    b: HamtNode<K, V>,
    n: nat,
    key: Seq<u8>,
    value: Seq<u8>,
)
    ensures
        copies(leaf_diff(a, b, n).0, key, value) == leaves_removed(a, b, n, key, value),
    decreases n,
{
    if n > 0 {
        leaves_removed_counted(a, b, (n - 1) as nat, key, value);
        let before = leaf_diff(a, b, (n - 1) as nat).0;
        let more = leaf_removed(a, b, n - 1);
        copies_concat(before, more, key, value);
        assert(leaf_diff(a, b, n).0 =~= before + more);
    }
}

proof fn removed_counted<K: HamtCodec, V: HamtCodec>(
    a: HamtNode<K, V>,
    b: HamtNode<K, V>,
    store: spec_fn(StructuralHash) -> HamtNode<K, V>,
    levels: nat,
    n: nat,
    key: Seq<u8>,
    value: Seq<u8>,
)
    requires
        levels > 0,
    ensures
        copies(diff_upto(a, b, store, levels, n).0, key, value) == leaves_removed(
            a,
            b,
            32,
            key,
            value,
        ) + children_removed(a, b, store, levels, n, key, value),
    decreases n,
{
    if n == 0 {
        leaves_removed_counted(a, b, 32, key, value);
    } else {
        removed_counted(a, b, store, levels, (n - 1) as nat, key, value);
        let before = diff_upto(a, b, store, levels, (n - 1) as nat).0;
        let more = child_removed(a, b, store, levels, n - 1);
        copies_concat(before, more, key, value);
        assert(diff_upto(a, b, store, levels, n).0 =~= before + more);
    }
}

/// A slot lists as removed what it has in the first trie beyond the second.
proof fn slot_removes_excess<K: HamtCodec, V: HamtCodec>(
    a: HamtNode<K, V>,
    b: HamtNode<K, V>,
    store: spec_fn(StructuralHash) -> HamtNode<K, V>,
    route: spec_fn(Seq<u8>) -> Seq<u8>,
    structural_key: Seq<u8>,
    depth: nat,
    slot: int,
    key: Seq<u8>,
    value: Seq<u8>,
)
    requires
        canonical(a, store, route, structural_key, depth),
        canonical(b, store, route, structural_key, depth),
        faithful(a, b, store, depth),
        0 <= slot < 32,
    ensures
        copies(leaf_removed(a, b, slot), key, value) + copies(
            child_removed(a, b, store, (52 - depth) as nat, slot),
            key,
            value,
        ) == excess(
            slot_copies(a, store, (52 - depth) as nat, slot, key, value),
            slot_copies(b, store, (52 - depth) as nat, slot, key, value),
        ),
    decreases 52 - depth, 0int,
{
    let levels = (52 - depth) as nat;
    let below = (levels - 1) as nat;
    let ca = node_at(a.child(slot), store);
    let cb = node_at(b.child(slot), store);
    canonical_slot(a, store, route, structural_key, depth, slot);
    canonical_slot(b, store, route, structural_key, depth, slot);
    copies_single(a.leaf(slot), key, value);
    assert(copies(Seq::<(K, V)>::empty(), key, value) == 0);
    assert((52 - (depth + 1)) as nat == below);
    if slot_set(a.nodemap, slot) {
        disjoint_slots(a.datamap, a.nodemap, slot);
    }
    if slot_set(b.nodemap, slot) {
        disjoint_slots(b.datamap, b.nodemap, slot);
    }
    if slot_set(a.nodemap, slot) && slot_set(b.nodemap, slot) {
        assert(is_slot(slot));
        assert(faithful(ca, cb, store, depth + 1));
        copies_once(ca, store, route, structural_key, depth + 1, key, value);
        copies_once(cb, store, route, structural_key, depth + 1, key, value);
        if ca.structural_hash@ == cb.structural_hash@ {
            assert(same_entries(ca, store, cb, store, depth + 1));
            assert(holds(ca, store, key, value, depth + 1) <==> holds(
                cb,
                store,
                key,
                value,
                depth + 1,
            ));
        } else {
            removed_excess(ca, cb, store, route, structural_key, depth + 1, key, value);
        }
    } else if slot_set(a.nodemap, slot) {
        copies_beside(entry_list(ca, store, below), slot_leaf(b, slot), key, value);
    } else if slot_set(b.nodemap, slot) {
        copies_beside(entry_list(cb, store, below), slot_leaf(a, slot), key, value);
    }
}

/// The first slots, put together.
proof fn slots_remove_excess<K: HamtCodec, V: HamtCodec>(
    a: HamtNode<K, V>,
    b: HamtNode<K, V>,
    store: spec_fn(StructuralHash) -> HamtNode<K, V>,
    route: spec_fn(Seq<u8>) -> Seq<u8>,
    structural_key: Seq<u8>,
    depth: nat,
    n: nat,
    key: Seq<u8>,
    value: Seq<u8>,
)
    requires
        canonical(a, store, route, structural_key, depth),
        canonical(b, store, route, structural_key, depth),
        faithful(a, b, store, depth),
        n <= 32,
    ensures
        leaves_removed(a, b, n, key, value) + children_removed(
            a,
            b,
            store,
            (52 - depth) as nat,
            n,
            key,
            value,
        ) == if bucket(route(key), depth) < n {
            let slot = bucket(route(key), depth);
            excess(
                slot_copies(a, store, (52 - depth) as nat, slot, key, value),
                slot_copies(b, store, (52 - depth) as nat, slot, key, value),
            )
        } else {
            0
        },
    decreases 52 - depth, 1int, n,
{
    bucket_range(route(key), depth);
    if n > 0 {
        let m = (n - 1) as nat;
        slots_remove_excess(a, b, store, route, structural_key, depth, m, key, value);
        slot_removes_excess(a, b, store, route, structural_key, depth, n - 1, key, value);
        if n - 1 != bucket(route(key), depth) {
            other_slots_empty(a, store, route, structural_key, depth, n - 1, key, value);
            other_slots_empty(b, store, route, structural_key, depth, n - 1, key, value);
        }
    }
}

/// A comparison lists as removed what the first trie has beyond the second.
proof fn removed_excess<K: HamtCodec, V: HamtCodec>(
    a: HamtNode<K, V>,
    b: HamtNode<K, V>,
    store: spec_fn(StructuralHash) -> HamtNode<K, V>,
    route: spec_fn(Seq<u8>) -> Seq<u8>,
    structural_key: Seq<u8>,
    depth: nat,
    key: Seq<u8>,
    value: Seq<u8>,
)
    requires
        canonical(a, store, route, structural_key, depth),
        canonical(b, store, route, structural_key, depth),
        faithful(a, b, store, depth),
    ensures
        copies(diff_upto(a, b, store, (52 - depth) as nat, 32).0, key, value) == excess(
            copies(entry_list(a, store, (52 - depth) as nat), key, value),
            copies(entry_list(b, store, (52 - depth) as nat), key, value),
        ),
    decreases 52 - depth, 2int,
{
    let levels = (52 - depth) as nat;
    bucket_range(route(key), depth);
    removed_counted(a, b, store, levels, 32, key, value);
    slots_remove_excess(a, b, store, route, structural_key, depth, 32, key, value);
    entries_by_slot(a, store, levels, key, value);
    entries_by_slot(b, store, levels, key, value);
    slots_upto(a, store, route, structural_key, depth, 32, key, value);
    slots_upto(b, store, route, structural_key, depth, 32, key, value);
}

/// Comparing two tries lists as removed, once each, exactly the entries that the
/// first holds and the second does not, and as added, once each, exactly those
/// that the second holds and the first does not. An entry of both is in neither
/// list, wherever it stands in the two tries.
pub proof fn diff_lists_differences<K: HamtCodec, V: HamtCodec>(
    a: HamtNode<K, V>,
    b: HamtNode<K, V>,
    store: spec_fn(StructuralHash) -> HamtNode<K, V>,
    route: spec_fn(Seq<u8>) -> Seq<u8>,
    structural_key: Seq<u8>,
    added: Seq<(K, V)>,
    removed: Seq<(K, V)>,
    key: Seq<u8>,
    value: Seq<u8>,
)
    requires
        canonical(a, store, route, structural_key, 0),
        canonical(b, store, route, structural_key, 0),
        faithful(a, b, store, 0),
        delta_lists(a, b, store, added, removed),
    ensures
        ({
            let in_a = holds(a, store, key, value, 0);
            let in_b = holds(b, store, key, value, 0);
            &&& in_entries(removed, key, value) <==> in_a && !in_b
            &&& in_entries(added, key, value) <==> in_b && !in_a
            &&& copies(removed, key, value) == once(in_a && !in_b)
            &&& copies(added, key, value) == once(in_b && !in_a)
        }),
{
    assert((52 - 0nat) as nat == 52nat);
    copies_listed(removed, key, value);
    copies_listed(added, key, value);
    if a.structural_hash@ == b.structural_hash@ {
        assert(same_entries(a, store, b, store, 0));
        assert(holds(a, store, key, value, 0) <==> holds(b, store, key, value, 0));
    } else {
        let (gone, new) = diff_upto(a, b, store, 52, 32);
        copies_copied(removed, gone, key, value);
        copies_copied(added, new, key, value);
        copies_once(a, store, route, structural_key, 0, key, value);
        copies_once(b, store, route, structural_key, 0, key, value);
        removed_excess(a, b, store, route, structural_key, 0, key, value);
        faithful_both_ways(a, b, store, 0);
        removed_excess(b, a, store, route, structural_key, 0, key, value);
        diff_symmetric(a, b, store, 52, 32);
    }
}

/// Comparing the tries of two lists of entries lists as removed, once each, what
/// is in the first list and not in the second, and as added the converse.
pub proof fn diff_of_built<K: HamtCodec, V: HamtCodec>(
    a: HamtNode<K, V>,
    b: HamtNode<K, V>,
    entries_a: Seq<(K, V)>,
    entries_b: Seq<(K, V)>,
    store: spec_fn(StructuralHash) -> HamtNode<K, V>,
    route: spec_fn(Seq<u8>) -> Seq<u8>,
    structural_key: Seq<u8>,
    added: Seq<(K, V)>,
    removed: Seq<(K, V)>,
    key: Seq<u8>,
    value: Seq<u8>,
)
    requires
        trie_of(a, entries_a, route, structural_key),
        trie_of(b, entries_b, route, structural_key),
        faithful(a, b, store, 0),
        delta_lists(a, b, store, added, removed),
    ensures
        ({
            let in_a = pair_listed(entries_a, key, value);
            let in_b = pair_listed(entries_b, key, value);
            &&& copies(removed, key, value) == once(in_a && !in_b)
            &&& copies(added, key, value) == once(in_b && !in_a)
        }),
{
    assert(canonical(a, store, route, structural_key, 0));
    assert(canonical(b, store, route, structural_key, 0));
    assert(holds(a, store, key, value, 0) <==> pair_listed(entries_a, key, value));
    assert(holds(b, store, key, value, 0) <==> pair_listed(entries_b, key, value));
    diff_lists_differences(
        a,
        b,
        store,
        route,
        structural_key,
        added,
        removed,
        key,
        value,
    );
}

/// The encodings of a list of entries.
pub open spec fn pairs<K: HamtCodec, V: HamtCodec>(entries: Seq<(K, V)>) -> Seq<
    (Seq<u8>, Seq<u8>),
> {
    Seq::new(entries.len(), |i: int| (entries[i].0.encoding(), entries[i].1.encoding()))
}

proof fn pairs_counted<K: HamtCodec, V: HamtCodec>(
    entries: Seq<(K, V)>,
    key: Seq<u8>,
    value: Seq<u8>,
)
    ensures
        pairs(entries).to_multiset().count((key, value)) == copies(entries, key, value),
    decreases entries.len(),
{
    broadcast use vstd::seq_lib::group_to_multiset_ensures;

    if entries.len() == 0 {
        assert(pairs(entries).len() == 0);
    } else {
        let short = entries.drop_last();
        pairs_counted(short, key, value);
        let last = entries.last();
        assert(pairs(entries) =~= pairs(short).push((last.0.encoding(), last.1.encoding())));
    }
}

/// Two lists have the same entries, each as often.
pub open spec fn same_pairs<K: HamtCodec, V: HamtCodec>(
    a: Seq<(K, V)>,
    b: Seq<(K, V)>,
) -> bool {
    pairs(a).to_multiset() == pairs(b).to_multiset()
}

/// Nodes in the same place of two tries that have the same hash have the same
/// entries.
pub open spec fn hashes_tell<K: HamtCodec, V: HamtCodec>(
    a: HamtNode<K, V>,
    b: HamtNode<K, V>,
    store: spec_fn(StructuralHash) -> HamtNode<K, V>,
    levels: nat,
) -> bool
    decreases levels,
{
    levels > 0 ==> {
        &&& a.structural_hash@ == b.structural_hash@ ==> same_pairs(
            entry_list(a, store, levels),
            entry_list(b, store, levels),
        )
        &&& forall|slot: int| #[trigger]
            is_slot(slot) && slot_set(a.nodemap, slot) && slot_set(b.nodemap, slot) ==> {
                let ca = node_at(a.child(slot), store);
                let cb = node_at(b.child(slot), store);
                let below = (levels - 1) as nat;
                &&& ref_hash(a.child(slot)) == ref_hash(b.child(slot)) ==> same_pairs(
                    entry_list(ca, store, below),
                    entry_list(cb, store, below),
                )
                &&& hashes_tell(ca, cb, store, below)
            }
    }
}

proof fn same_pairs_counted<K: HamtCodec, V: HamtCodec>(
    a: Seq<(K, V)>,
    b: Seq<(K, V)>,
    key: Seq<u8>,
    value: Seq<u8>,
)
    requires
        same_pairs(a, b),
    ensures
        copies(a, key, value) == copies(b, key, value),
{
    pairs_counted(a, key, value);
    pairs_counted(b, key, value);
}

/// A slot balances: what it has in one trie with what it lists as missing there.
proof fn slot_balances<K: HamtCodec, V: HamtCodec>(
    load: spec_fn(StructuralHash, HamtNode<K, V>) -> bool,
    a: HamtNode<K, V>,
    b: HamtNode<K, V>,
    store: spec_fn(StructuralHash) -> HamtNode<K, V>,
    levels: nat,
    slot: int,
    key: Seq<u8>,
    value: Seq<u8>,
)
    requires
        readable(load, store, a, levels),
        readable(load, store, b, levels),
        hashes_tell(a, b, store, levels),
        levels > 0,
        0 <= slot < 32,
    ensures
        slot_copies(a, store, levels, slot, key, value) + copies(
            leaf_removed(b, a, slot),
            key,
            value,
        ) + copies(child_removed(b, a, store, levels, slot), key, value) == slot_copies(
            b,
            store,
            levels,
            slot,
            key,
            value,
        ) + copies(leaf_removed(a, b, slot), key, value) + copies(
            child_removed(a, b, store, levels, slot),
            key,
            value,
        ),
    decreases levels, 0int,
{
    let below = (levels - 1) as nat;
    let ca = node_at(a.child(slot), store);
    let cb = node_at(b.child(slot), store);
    copies_single(a.leaf(slot), key, value);
    copies_single(b.leaf(slot), key, value);
    assert(copies(Seq::<(K, V)>::empty(), key, value) == 0);
    if slot_set(a.nodemap, slot) {
        disjoint_slots(a.datamap, a.nodemap, slot);
        rank_monotone(a.nodemap, slot, 32);
        assert(a.children@[rank(a.nodemap, slot) as int] == a.child(slot));
        assert(readable(load, store, ca, below));
    }
    if slot_set(b.nodemap, slot) {
        disjoint_slots(b.datamap, b.nodemap, slot);
        rank_monotone(b.nodemap, slot, 32);
        assert(b.children@[rank(b.nodemap, slot) as int] == b.child(slot));
        assert(readable(load, store, cb, below));
    }
    if slot_set(a.nodemap, slot) && slot_set(b.nodemap, slot) {
        assert(is_slot(slot));
        assert(hashes_tell(ca, cb, store, below));
        if ref_hash(a.child(slot)) == ref_hash(b.child(slot)) {
            same_pairs_counted(
                entry_list(ca, store, below),
                entry_list(cb, store, below),
                key,
                value,
            );
        } else if ca.structural_hash@ == cb.structural_hash@ {
            if below > 0 {
                same_pairs_counted(
                    entry_list(ca, store, below),
                    entry_list(cb, store, below),
                    key,
                    value,
                );
            }
        } else {
            node_balances(load, ca, cb, store, below, key, value);
        }
    } else if slot_set(a.nodemap, slot) {
        copies_beside(entry_list(ca, store, below), slot_leaf(b, slot), key, value);
    } else if slot_set(b.nodemap, slot) {
        copies_beside(entry_list(cb, store, below), slot_leaf(a, slot), key, value);
    }
}

/// The first slots, put together.
proof fn slots_balance<K: HamtCodec, V: HamtCodec>(
    load: spec_fn(StructuralHash, HamtNode<K, V>) -> bool,
    a: HamtNode<K, V>,
    b: HamtNode<K, V>,
    store: spec_fn(StructuralHash) -> HamtNode<K, V>,
    levels: nat,
    n: nat,
    key: Seq<u8>,
    value: Seq<u8>,
)
    requires
        readable(load, store, a, levels),
        readable(load, store, b, levels),
        hashes_tell(a, b, store, levels),
        levels > 0,
        n <= 32,
    ensures
        leaves_upto(a, n, key, value) + children_upto(a, store, levels, n, key, value)
            + leaves_removed(b, a, n, key, value) + children_removed(
            b,
            a,
            store,
            levels,
            n,
            key,
            value,
        ) == leaves_upto(b, n, key, value) + children_upto(b, store, levels, n, key, value)
            + leaves_removed(a, b, n, key, value) + children_removed(
            a,
            b,
            store,
            levels,
            n,
            key,
            value,
        ),
    decreases levels, 1int, n,
{
    if n > 0 {
        slots_balance(load, a, b, store, levels, (n - 1) as nat, key, value);
        slot_balances(load, a, b, store, levels, n - 1, key, value);
    }
}

proof fn node_balances<K: HamtCodec, V: HamtCodec>(
    load: spec_fn(StructuralHash, HamtNode<K, V>) -> bool,
    a: HamtNode<K, V>,
    b: HamtNode<K, V>,
    store: spec_fn(StructuralHash) -> HamtNode<K, V>,
    levels: nat,
    key: Seq<u8>,
    value: Seq<u8>,
)
    requires
        readable(load, store, a, levels),
        readable(load, store, b, levels),
        hashes_tell(a, b, store, levels),
    ensures
        copies(entry_list(a, store, levels), key, value) + copies(
            diff_upto(b, a, store, levels, 32).0,
            key,
            value,
        ) == copies(entry_list(b, store, levels), key, value) + copies(
            diff_upto(a, b, store, levels, 32).0,
            key,
            value,
        ),
    decreases levels, 2int,
{
    if levels > 0 {
        entries_by_slot(a, store, levels, key, value);
        entries_by_slot(b, store, levels, key, value);
        removed_counted(a, b, store, levels, 32, key, value);
        removed_counted(b, a, store, levels, 32, key, value);
        slots_balance(load, a, b, store, levels, 32, key, value);
    }
}

/// The entries of the first trie with what was added are the entries of the
/// second with what was removed, in tries of any shape whose hashes tell their
/// entries apart.
pub proof fn diff_balances<K: HamtCodec, V: HamtCodec>(
    load: spec_fn(StructuralHash, HamtNode<K, V>) -> bool,
    a: HamtNode<K, V>,
    b: HamtNode<K, V>,
    store: spec_fn(StructuralHash) -> HamtNode<K, V>,
    added: Seq<(K, V)>,
    removed: Seq<(K, V)>,
)
    requires
        readable(load, store, a, 52),
        readable(load, store, b, 52),
        hashes_tell(a, b, store, 52),
        delta_lists(a, b, store, added, removed),
    ensures
        pairs(entry_list(a, store, 52)).to_multiset().add(pairs(added).to_multiset()) == pairs(
            entry_list(b, store, 52),
        ).to_multiset().add(pairs(removed).to_multiset()),
{
    let left = pairs(entry_list(a, store, 52)).to_multiset().add(pairs(added).to_multiset());
    let right = pairs(entry_list(b, store, 52)).to_multiset().add(pairs(removed).to_multiset());
    assert forall|pair: (Seq<u8>, Seq<u8>)| #[trigger] left.count(pair) == right.count(pair) by {
        let (key, value) = pair;
        pairs_counted(entry_list(a, store, 52), key, value);
        pairs_counted(entry_list(b, store, 52), key, value);
        pairs_counted(added, key, value);
        pairs_counted(removed, key, value);
        if a.structural_hash@ == b.structural_hash@ {
            same_pairs_counted(entry_list(a, store, 52), entry_list(b, store, 52), key, value);
            assert(copies(added, key, value) == 0 && copies(removed, key, value) == 0);
        } else {
            let (gone, new) = diff_upto(a, b, store, 52, 32);
            copies_copied(removed, gone, key, value);
            copies_copied(added, new, key, value);
            diff_symmetric(a, b, store, 52, 32);
            node_balances(load, a, b, store, 52, key, value);
        }
    }
    assert(left =~= right);
}

/// In canonical tries that share no digest by chance, hashes tell the entries
/// apart.
pub proof fn canonical_hashes_tell<K: HamtCodec, V: HamtCodec>(
    a: HamtNode<K, V>,
    b: HamtNode<K, V>,
    store: spec_fn(StructuralHash) -> HamtNode<K, V>,
    route: spec_fn(Seq<u8>) -> Seq<u8>,
    structural_key: Seq<u8>,
    depth: nat,
)
    requires
        canonical(a, store, route, structural_key, depth),
        canonical(b, store, route, structural_key, depth),
        faithful(a, b, store, depth),
    ensures
        hashes_tell(a, b, store, (52 - depth) as nat),
    decreases 52 - depth,
{
    let levels = (52 - depth) as nat;
    if a.structural_hash@ == b.structural_hash@ {
        same_entries_same_pairs(a, b, store, route, structural_key, depth);
    }
    assert forall|slot: int| #[trigger]
        is_slot(slot) && slot_set(a.nodemap, slot) && slot_set(b.nodemap, slot) implies {
        let ca = node_at(a.child(slot), store);
        let cb = node_at(b.child(slot), store);
        let below = (levels - 1) as nat;
        &&& ref_hash(a.child(slot)) == ref_hash(b.child(slot)) ==> same_pairs(
            entry_list(ca, store, below),
            entry_list(cb, store, below),
        )
        &&& hashes_tell(ca, cb, store, below)
    } by {
        let ca = node_at(a.child(slot), store);
        let cb = node_at(b.child(slot), store);
        canonical_slot(a, store, route, structural_key, depth, slot);
        canonical_slot(b, store, route, structural_key, depth, slot);
        assert(faithful(ca, cb, store, depth + 1));
        assert((52 - (depth + 1)) as nat == (levels - 1) as nat);
        canonical_hashes_tell(ca, cb, store, route, structural_key, depth + 1);
        if ref_hash(a.child(slot)) == ref_hash(b.child(slot)) {
            same_entries_same_pairs(ca, cb, store, route, structural_key, depth + 1);
        }
    }
}

proof fn same_entries_same_pairs<K: HamtCodec, V: HamtCodec>(
    a: HamtNode<K, V>,
    b: HamtNode<K, V>,
    store: spec_fn(StructuralHash) -> HamtNode<K, V>,
    route: spec_fn(Seq<u8>) -> Seq<u8>,
    structural_key: Seq<u8>,
    depth: nat,
)
    requires
        canonical(a, store, route, structural_key, depth),
        canonical(b, store, route, structural_key, depth),
        same_entries(a, store, b, store, depth),
    ensures
        same_pairs(
            entry_list(a, store, (52 - depth) as nat),
            entry_list(b, store, (52 - depth) as nat),
        ),
{
    let ours = entry_list(a, store, (52 - depth) as nat);
    let theirs = entry_list(b, store, (52 - depth) as nat);
    assert forall|pair: (Seq<u8>, Seq<u8>)| #[trigger]
        pairs(ours).to_multiset().count(pair) == pairs(theirs).to_multiset().count(pair) by {
        let (key, value) = pair;
        copies_once(a, store, route, structural_key, depth, key, value);
        copies_once(b, store, route, structural_key, depth, key, value);
        pairs_counted(ours, key, value);
        pairs_counted(theirs, key, value);
        assert(holds(a, store, key, value, depth) <==> holds(b, store, key, value, depth));
    }
    assert(pairs(ours).to_multiset() =~= pairs(theirs).to_multiset());
}

} // verus!
