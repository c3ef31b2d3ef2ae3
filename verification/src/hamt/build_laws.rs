//! What holds of tries that are built from entries, and changed, read and
//! compared after that.

use std::sync::Arc;
use vstd::prelude::*;
use vstd::seq_lib::to_multiset_contains;
use super::bitmap::{rank, rank_monotone, select_facts, select_slot, slot_set};
use super::codec::HamtCodec;
use super::construct::{
    build_along_route, build_outcome, pair_listed, path_entries, routes_collide, same_path,
    same_path_is_same_hash, trie_of, HamtBuildError,
};
use super::delta::{hash_list, node_delta_lists, NodeHashDelta};
use super::delta_laws::{copies, copies_once, once};
use super::gc_laws::{no_collisions, node_delta_is_exact};
use super::hash::StructuralHash;
use super::laws::{all_resolved, lookup_in_part, resident_finds, unloads};
use super::mutate::{
    along, insert_outcome, inserted, lookup_at_end, path_end, remove_outcome, sound, taken_out,
    HamtMutateError, PathEnd,
};
use super::node::{
    bucket, bucket_range, canonical, canonical_slot, canonical_unique, child_agrees, hash_views,
    holds, leaf_agrees, loader, lookup, lookup_finds, node_at, readable, ref_hashes, resident,
    same_entries, slot_in_node, HamtNode, NodeRef,
};
use super::read::{path_fails, path_loads, search_outcome, value_encoding};
use super::slots::same_leaf;
use super::walk::entry_list;

verus! {

/// A trie that is canonical whatever a store holds has nothing left to be loaded.
pub proof fn canonical_everywhere_resolved<K: HamtCodec, V: HamtCodec>(
    node: HamtNode<K, V>,
    route: spec_fn(Seq<u8>) -> Seq<u8>,
    structural_key: Seq<u8>,
    depth: nat,
)
    requires
        depth < 52,
        forall|store: spec_fn(StructuralHash) -> HamtNode<K, V>| #[trigger]
            canonical(node, store, route, structural_key, depth),
    ensures
        all_resolved(node, (52 - depth) as nat),
    decreases 52 - depth,
{
    let odd = HamtNode { datamap: 1, nodemap: 1, ..node };
    let store = |hash: StructuralHash| odd;
    assert(!odd.shape()) by {
        assert(1u32 & 1u32 != 0u32) by (bit_vector);
    }
    assert(canonical(node, store, route, structural_key, depth));
    assert forall|i: int| 0 <= i < node.children@.len() implies ((
    #[trigger] node.children@[i]) matches NodeRef::Resolved(child) && all_resolved(
        *child,
        (52 - depth - 1) as nat,
    )) by {
        let slot = select_slot(node.nodemap, i);
        select_facts(node.nodemap, i);
        canonical_slot(node, store, route, structural_key, depth, slot);
        assert(node.child(slot) == node.children@[i]);
        let child = node_at(node.children@[i], store);
        assert(canonical(child, store, route, structural_key, depth + 1));
        assert forall|other: spec_fn(StructuralHash) -> HamtNode<K, V>| #[trigger]
            canonical(child, other, route, structural_key, depth + 1) by {
            assert(canonical(node, other, route, structural_key, depth));
            canonical_slot(node, other, route, structural_key, depth, slot);
        }
        canonical_everywhere_resolved(child, route, structural_key, depth + 1);
    }
}

/// A trie with nothing left to be loaded can be read whatever can be loaded.
proof fn resolved_readable<K: HamtCodec, V: HamtCodec>(
    load: spec_fn(StructuralHash, HamtNode<K, V>) -> bool,
    store: spec_fn(StructuralHash) -> HamtNode<K, V>,
    node: HamtNode<K, V>,
    route: spec_fn(Seq<u8>) -> Seq<u8>,
    structural_key: Seq<u8>,
    depth: nat,
)
    requires
        canonical(node, store, route, structural_key, depth),
        all_resolved(node, (52 - depth) as nat),
    ensures
        readable(load, store, node, (52 - depth) as nat),
    decreases 52 - depth,
{
    assert forall|i: int| 0 <= i < node.children@.len() implies {
        &&& (#[trigger] node.children@[i]) matches NodeRef::Lazy(h) ==> forall|n: HamtNode<K, V>|
         #[trigger]
            load(h, n) ==> n == store(h)
        &&& readable(load, store, node_at(node.children@[i], store), (52 - depth - 1) as nat)
    } by {
        let slot = select_slot(node.nodemap, i);
        select_facts(node.nodemap, i);
        canonical_slot(node, store, route, structural_key, depth, slot);
        assert(node.child(slot) == node.children@[i]);
        assert((52 - (depth + 1)) as nat == (52 - depth - 1) as nat);
        resolved_readable(
            load,
            store,
            node_at(node.children@[i], store),
            route,
            structural_key,
            depth + 1,
        );
    }
}

/// A trie that is canonical and holds the entries whatever a store holds is the
/// trie of the entries.
proof fn trie_everywhere<K: HamtCodec, V: HamtCodec>(
    node: HamtNode<K, V>,
    entries: Seq<(K, V)>,
    route: spec_fn(Seq<u8>) -> Seq<u8>,
    structural_key: Seq<u8>,
)
    requires
        forall|store: spec_fn(StructuralHash) -> HamtNode<K, V>| #[trigger]
            canonical(node, store, route, structural_key, 0),
        forall|
            store: spec_fn(StructuralHash) -> HamtNode<K, V>,
            key: Seq<u8>,
            value: Seq<u8>,
        | #[trigger]
            holds(node, store, key, value, 0) <==> pair_listed(entries, key, value),
    ensures
        trie_of(node, entries, route, structural_key),
{
    canonical_everywhere_resolved(node, route, structural_key, 0);
    assert forall|
        load: spec_fn(StructuralHash, HamtNode<K, V>) -> bool,
        store: spec_fn(StructuralHash) -> HamtNode<K, V>,
    | #[trigger] readable(load, store, node, 52) by {
        assert(canonical(node, store, route, structural_key, 0));
        assert((52 - 0nat) as nat == 52nat);
        resolved_readable(load, store, node, route, structural_key, 0);
    }
}

/// Two tries are the same node by node: bitmaps, structural hashes, the encodings
/// of the leaves, and the children.
pub open spec fn same_tree<K: HamtCodec, V: HamtCodec>(
    a: HamtNode<K, V>,
    b: HamtNode<K, V>,
    store: spec_fn(StructuralHash) -> HamtNode<K, V>,
    levels: nat,
) -> bool
    decreases levels,
{
    levels > 0 ==> {
        &&& a.datamap == b.datamap
        &&& a.nodemap == b.nodemap
        &&& a.structural_hash@ == b.structural_hash@
        &&& a.leaves@.len() == b.leaves@.len()
        &&& forall|i: int|
            0 <= i < a.leaves@.len() ==> same_leaf(#[trigger] a.leaves@[i], b.leaves@[i])
        &&& ref_hashes(a.children@) == ref_hashes(b.children@)
        &&& a.children@.len() == b.children@.len()
        &&& forall|i: int|
            0 <= i < a.children@.len() ==> same_tree(
                node_at(#[trigger] a.children@[i], store),
                node_at(b.children@[i], store),
                store,
                (levels - 1) as nat,
            )
    }
}

/// Canonical tries with the same entries are the same node by node.
pub proof fn canonical_same_tree<K: HamtCodec, V: HamtCodec>(
    a: HamtNode<K, V>,
    b: HamtNode<K, V>,
    store: spec_fn(StructuralHash) -> HamtNode<K, V>,
    route: spec_fn(Seq<u8>) -> Seq<u8>,
    structural_key: Seq<u8>,
    depth: nat,
)
    requires
        canonical(a, store, route, structural_key, depth),
        canonical(b, store, route, structural_key, depth),
        same_entries(a, store, b, store, depth),
    ensures
        same_tree(a, b, store, (52 - depth) as nat),
    decreases 52 - depth,
{
    canonical_unique(a, store, b, store, route, structural_key, depth);
    assert forall|i: int| 0 <= i < a.leaves@.len() implies same_leaf(
        #[trigger] a.leaves@[i],
        b.leaves@[i],
    ) by {
        let slot = select_slot(a.datamap, i);
        select_facts(a.datamap, i);
        leaf_agrees(a, store, b, store, route, structural_key, depth, slot);
        assert(a.leaf(slot) == a.leaves@[i] && b.leaf(slot) == b.leaves@[i]);
    }
    assert forall|i: int| 0 <= i < a.children@.len() implies same_tree(
        node_at(#[trigger] a.children@[i], store),
        node_at(b.children@[i], store),
        store,
        (52 - depth - 1) as nat,
    ) by {
        let slot = select_slot(a.nodemap, i);
        select_facts(a.nodemap, i);
        child_agrees(a, store, b, store, route, structural_key, depth, slot);
        canonical_slot(a, store, route, structural_key, depth, slot);
        canonical_slot(b, store, route, structural_key, depth, slot);
        assert(a.child(slot) == a.children@[i] && b.child(slot) == b.children@[i]);
        assert((52 - (depth + 1)) as nat == (52 - depth - 1) as nat);
        canonical_same_tree(
            node_at(a.children@[i], store),
            node_at(b.children@[i], store),
            store,
            route,
            structural_key,
            depth + 1,
        );
    }
}

/// The tries of lists with the same entries are the same node by node, so the order
/// of the entries that a trie is built from does not matter. A walk lists each
/// entry once and nothing else.
pub proof fn build_order_independent<K: HamtCodec, V: HamtCodec>(
    a: HamtNode<K, V>,
    a_entries: Seq<(K, V)>,
    b: HamtNode<K, V>,
    b_entries: Seq<(K, V)>,
    store: spec_fn(StructuralHash) -> HamtNode<K, V>,
    route: spec_fn(Seq<u8>) -> Seq<u8>,
    structural_key: Seq<u8>,
    key: Seq<u8>,
    value: Seq<u8>,
)
    requires
        trie_of(a, a_entries, route, structural_key),
        trie_of(b, b_entries, route, structural_key),
        forall|k: Seq<u8>, v: Seq<u8>| #[trigger]
            pair_listed(a_entries, k, v) <==> pair_listed(b_entries, k, v),
    ensures
        all_resolved(a, 52),
        all_resolved(b, 52),
        same_tree(a, b, store, 52),
        copies(entry_list(a, store, 52), key, value) == once(pair_listed(a_entries, key, value)),
        copies(entry_list(b, store, 52), key, value) == once(pair_listed(a_entries, key, value)),
{
    assert((52 - 0nat) as nat == 52nat);
    assert(canonical(a, store, route, structural_key, 0));
    assert(canonical(b, store, route, structural_key, 0));
    assert(same_entries(a, store, b, store, 0)) by {
        assert forall|k: Seq<u8>, v: Seq<u8>|
            #![trigger holds(a, store, k, v, 0)]
            #![trigger holds(b, store, k, v, 0)]
            holds(a, store, k, v, 0) <==> holds(b, store, k, v, 0) by {
            assert(holds(a, store, k, v, 0) <==> pair_listed(a_entries, k, v));
            assert(holds(b, store, k, v, 0) <==> pair_listed(b_entries, k, v));
        }
    }
    canonical_same_tree(a, b, store, route, structural_key, 0);
    canonical_everywhere_resolved(a, route, structural_key, 0);
    canonical_everywhere_resolved(b, route, structural_key, 0);
    copies_once(a, store, route, structural_key, 0, key, value);
    copies_once(b, store, route, structural_key, 0, key, value);
    assert(holds(a, store, key, value, 0) <==> pair_listed(a_entries, key, value));
    assert(holds(b, store, key, value, 0) <==> pair_listed(b_entries, key, value));
}

/// A list that has an item twice has it in two places.
pub proof fn two_places<T>(items: Seq<T>, item: T) -> (places: (int, int))
    requires
        items.to_multiset().count(item) >= 2,
    ensures
        0 <= places.0 < places.1 < items.len(),
        items[places.0] == item,
        items[places.1] == item,
{
    broadcast use vstd::seq_lib::group_to_multiset_ensures;

    to_multiset_contains(items, item);
    let i = choose|i: int| 0 <= i < items.len() && items[i] == item;
    let rest = items.remove(i);
    assert(rest.to_multiset() =~= items.to_multiset().remove(item));
    to_multiset_contains(rest, item);
    let j = choose|j: int| 0 <= j < rest.len() && rest[j] == item;
    if j < i {
        (j, i)
    } else {
        (i, j + 1)
    }
}

/// Colliding routes stay so when the entries change places.
proof fn collision_permuted<K: HamtCodec, V: HamtCodec>(
    a: Seq<(K, V)>,
    b: Seq<(K, V)>,
    route: spec_fn(Seq<u8>) -> Seq<u8>,
    i: int,
    j: int,
)
    requires
        a.to_multiset() =~= b.to_multiset(),
        routes_collide(a, route, i, j),
    ensures
        exists|m: int, n: int| routes_collide(b, route, m, n),
{
    broadcast use vstd::seq_lib::group_to_multiset_ensures;

    let (x, y) = (a[i], a[j]);
    to_multiset_contains(a, x);
    to_multiset_contains(a, y);
    to_multiset_contains(b, x);
    to_multiset_contains(b, y);
    assert(a.contains(x) && a.contains(y));
    if x == y {
        let rest = a.remove(i);
        assert(rest[j - 1] == y);
        to_multiset_contains(rest, x);
        assert(rest.to_multiset() =~= a.to_multiset().remove(x));
        assert(a.to_multiset().count(x) >= 2);
        let (m, n) = two_places(b, x);
        assert(routes_collide(b, route, m, n));
    } else {
        assert(b.contains(x) && b.contains(y));
        let m = choose|m: int| 0 <= m < b.len() && b[m] == x;
        let n = choose|n: int| 0 <= n < b.len() && b[n] == y;
        if m < n {
            assert(routes_collide(b, route, m, n));
        } else {
            assert(routes_collide(b, route, n, m));
        }
    }
}

/// A list has the pairs of the list that its entries were taken from.
proof fn pairs_permuted<K: HamtCodec, V: HamtCodec>(
    a: Seq<(K, V)>,
    b: Seq<(K, V)>,
    key: Seq<u8>,
    value: Seq<u8>,
)
    requires
        a.to_multiset() =~= b.to_multiset(),
        pair_listed(a, key, value),
    ensures
        pair_listed(b, key, value),
{
    broadcast use vstd::seq_lib::group_to_multiset_ensures;

    let i = choose|i: int|
        0 <= i < a.len() && (#[trigger] a[i]).0.encoding() == key && a[i].1.encoding() == value;
    to_multiset_contains(a, a[i]);
    to_multiset_contains(b, a[i]);
    assert(a.contains(a[i]));
    let j = choose|j: int| 0 <= j < b.len() && b[j] == a[i];
    assert(b[j].0.encoding() == key);
}

/// Building from entries whose keys have different routes succeeds, in whatever
/// order they come, and gives the same trie node by node.
pub proof fn permuted_builds<K: HamtCodec, V: HamtCodec>(
    a_entries: Seq<(K, V)>,
    a_paths: Seq<StructuralHash>,
    a_result: Result<Arc<HamtNode<K, V>>, HamtBuildError>,
    b_entries: Seq<(K, V)>,
    b_paths: Seq<StructuralHash>,
    b_result: Result<Arc<HamtNode<K, V>>, HamtBuildError>,
    store: spec_fn(StructuralHash) -> HamtNode<K, V>,
    route: spec_fn(Seq<u8>) -> Seq<u8>,
    structural_key: Seq<u8>,
)
    requires
        a_entries.to_multiset() =~= b_entries.to_multiset(),
        a_paths.len() == a_entries.len(),
        forall|i: int|
            0 <= i < a_entries.len() ==> (#[trigger] a_paths[i])@ == route(
                a_entries[i].0.encoding(),
            ),
        b_paths.len() == b_entries.len(),
        forall|i: int|
            0 <= i < b_entries.len() ==> (#[trigger] b_paths[i])@ == route(
                b_entries[i].0.encoding(),
            ),
        build_outcome(path_entries(a_entries, a_paths), structural_key, a_result),
        build_outcome(path_entries(b_entries, b_paths), structural_key, b_result),
        forall|i: int, j: int| !routes_collide(a_entries, route, i, j),
    ensures
        a_result matches Ok(a) && b_result matches Ok(b) && trie_of(
            *a,
            a_entries,
            route,
            structural_key,
        ) && trie_of(*b, a_entries, route, structural_key) && same_tree(*a, *b, store, 52),
{
    build_along_route(a_entries, a_paths, route, structural_key, a_result);
    build_along_route(b_entries, b_paths, route, structural_key, b_result);
    assert forall|i: int, j: int| !routes_collide(b_entries, route, i, j) by {
        if routes_collide(b_entries, route, i, j) {
            collision_permuted(b_entries, a_entries, route, i, j);
        }
    }
    let a: &HamtNode<K, V> = &*a_result->Ok_0;
    let b: &HamtNode<K, V> = &*b_result->Ok_0;
    assert forall|k: Seq<u8>, v: Seq<u8>| #[trigger]
        pair_listed(a_entries, k, v) <==> pair_listed(b_entries, k, v) by {
        if pair_listed(a_entries, k, v) {
            pairs_permuted(a_entries, b_entries, k, v);
        }
        if pair_listed(b_entries, k, v) {
            pairs_permuted(b_entries, a_entries, k, v);
        }
    }
    build_order_independent(
        *a,
        a_entries,
        *b,
        b_entries,
        store,
        route,
        structural_key,
        Seq::empty(),
        Seq::empty(),
    );
}

/// Looking a key up in the trie of some entries gives the value that the entries
/// list for it, and nothing where they list none.
pub proof fn built_lookup<K: HamtCodec, V: HamtCodec>(
    root: HamtNode<K, V>,
    entries: Seq<(K, V)>,
    route: spec_fn(Seq<u8>) -> Seq<u8>,
    structural_key: Seq<u8>,
    key: Seq<u8>,
    value: Seq<u8>,
)
    requires
        trie_of(root, entries, route, structural_key),
    ensures
        value_encoding(resident(root, route(key), key, 0)) == Some(value) <==> pair_listed(
            entries,
            key,
            value,
        ),
{
    let store = |hash: StructuralHash| root;
    assert(canonical(root, store, route, structural_key, 0));
    assert((52 - 0nat) as nat == 52nat);
    canonical_everywhere_resolved(root, route, structural_key, 0);
    resident_finds(root, store, route, structural_key, route(key), key, 0);
    lookup_finds(root, store, route, structural_key, key, value, 0);
    assert(holds(root, store, key, value, 0) <==> pair_listed(entries, key, value));
}

/// Nothing is loaded on the way down a trie with nothing left to be loaded.
proof fn resolved_loads_nothing<K: HamtCodec, V: HamtCodec>(
    load: spec_fn(StructuralHash, HamtNode<K, V>) -> bool,
    node: HamtNode<K, V>,
    store: spec_fn(StructuralHash) -> HamtNode<K, V>,
    route: spec_fn(Seq<u8>) -> Seq<u8>,
    structural_key: Seq<u8>,
    path: Seq<u8>,
    depth: nat,
    hash: StructuralHash,
)
    requires
        depth < 52 ==> canonical(node, store, route, structural_key, depth),
        depth < 52 ==> all_resolved(node, (52 - depth) as nat),
    ensures
        !path_loads(load, node, store, path, depth, hash),
    decreases 52 - depth,
{
    if depth < 52 {
        let slot = bucket(path, depth);
        bucket_range(path, depth);
        canonical_slot(node, store, route, structural_key, depth, slot);
        if slot_set(node.nodemap, slot) {
            rank_monotone(node.nodemap, slot, 32);
            assert(node.children@[rank(node.nodemap, slot) as int] == node.child(slot));
            resolved_loads_nothing(
                load,
                node_at(node.child(slot), store),
                store,
                route,
                structural_key,
                path,
                depth + 1,
                hash,
            );
        }
    }
}

/// A leaf at the end of a path is an entry whose route takes the path that far.
proof fn end_on_path<K: HamtCodec, V: HamtCodec>(
    node: HamtNode<K, V>,
    store: spec_fn(StructuralHash) -> HamtNode<K, V>,
    route: spec_fn(Seq<u8>) -> Seq<u8>,
    structural_key: Seq<u8>,
    path: Seq<u8>,
    depth: nat,
)
    requires
        canonical(node, store, route, structural_key, depth),
    ensures
        match path_end(node, store, path, depth) {
            PathEnd::Leaf(at, k, v) => {
                &&& holds(node, store, k.encoding(), v.encoding(), depth)
                &&& forall|d: nat|
                    depth <= d <= at ==> #[trigger] bucket(route(k.encoding()), d) == bucket(path, d)
            },
            PathEnd::Empty => true,
            PathEnd::Deep(_) => false,
        },
    decreases 52 - depth,
{
    let slot = bucket(path, depth);
    bucket_range(path, depth);
    canonical_slot(node, store, route, structural_key, depth, slot);
    if slot_set(node.datamap, slot) {
        let leaf = node.leaf(slot);
        slot_in_node(node, store, leaf.0.encoding(), leaf.1.encoding(), depth, slot);
    } else if slot_set(node.nodemap, slot) {
        let child = node_at(node.child(slot), store);
        end_on_path(child, store, route, structural_key, path, depth + 1);
        if let PathEnd::Leaf(at, k, v) = path_end(child, store, path, depth + 1) {
            slot_in_node(node, store, k.encoding(), v.encoding(), depth, slot);
            assert forall|d: nat| depth <= d <= at implies #[trigger] bucket(
                route(k.encoding()),
                d,
            ) == bucket(path, d) by {
                if d == depth {
                    assert(holds(child, store, k.encoding(), v.encoding(), depth + 1));
                }
            }
        }
    }
}

/// The entries list a value for the key, or none.
pub open spec fn listed_value<K: HamtCodec, V: HamtCodec>(
    entries: Seq<(K, V)>,
    key: Seq<u8>,
    value: Option<Seq<u8>>,
) -> bool {
    match value {
        Some(value) => pair_listed(entries, key, value),
        None => forall|value: Seq<u8>| !pair_listed(entries, key, value),
    }
}

/// Inserting a key into the trie of some entries succeeds, unless another key has
/// its route, and gives the value that was listed for the key before. The result is
/// the trie of the entries with the value for the key, as if built from them, and
/// so reads as they do.
pub proof fn insert_into_built<K: HamtCodec, V: HamtCodec, F, E>(
    hashes: spec_fn(Seq<u8>, StructuralHash) -> bool,
    resolver: F,
    root: HamtNode<K, V>,
    entries: Seq<(K, V)>,
    route: spec_fn(Seq<u8>) -> Seq<u8>,
    structural_key: Seq<u8>,
    path: StructuralHash,
    key: Seq<u8>,
    value: Seq<u8>,
    result: Result<(Arc<HamtNode<K, V>>, Option<V>), HamtMutateError<E>>,
    expected: Seq<(K, V)>,
) where F: FnMut(&StructuralHash) -> Result<Arc<HamtNode<K, V>>, E>
    requires
        trie_of(root, entries, route, structural_key),
        along(hashes, route),
        route(key) == path@,
        forall|k: Seq<u8>, v: Seq<u8>| #[trigger]
            pair_listed(entries, k, v) && k != key ==> route(k) != route(key),
        insert_outcome::<K, V, F, E>(
            hashes,
            resolver,
            root,
            structural_key,
            path@,
            0,
            key,
            value,
            result,
        ),
        forall|k: Seq<u8>, v: Seq<u8>| #[trigger]
            pair_listed(expected, k, v) <==> if k == key {
                v == value
            } else {
                pair_listed(entries, k, v)
            },
    ensures
        result matches Ok((changed, previous)) && listed_value(
            entries,
            key,
            value_encoding(previous),
        ) && trie_of(*changed, expected, route, structural_key),
{
    let load = loader::<K, V, E, F>(resolver);
    let store = |hash: StructuralHash| root;
    assert((52 - 0nat) as nat == 52nat);
    assert(canonical(root, store, route, structural_key, 0));
    assert(readable(load, store, root, 52));
    canonical_everywhere_resolved(root, route, structural_key, 0);
    if let Err(HamtMutateError::Resolve(error)) = result {
        let hash = choose|hash: StructuralHash|
            {
                &&& #[trigger] call_ensures(resolver, (&hash,), Err::<Arc<HamtNode<K, V>>, E>(error))
                &&& forall|store: spec_fn(StructuralHash) -> HamtNode<K, V>| #[trigger]
                    readable(load, store, root, (52 - 0nat) as nat) ==> path_loads(
                        load,
                        root,
                        store,
                        path@,
                        0,
                        hash,
                    )
            };
        assert(readable(load, store, root, (52 - 0nat) as nat));
        resolved_loads_nothing(load, root, store, route, structural_key, path@, 0, hash);
    } else {
        end_on_path(root, store, route, structural_key, path@, 0);
        lookup_at_end(root, store, path@, key, 0);
        let end = path_end(root, store, path@, 0);
        assert(readable(load, store, root, (52 - 0nat) as nat));
        if let PathEnd::Leaf(at, k, v) = end {
            if k.encoding() != key {
                assert(holds(root, store, k.encoding(), v.encoding(), 0));
                assert(pair_listed(entries, k.encoding(), v.encoding()));
                assert forall|hash: StructuralHash| #[trigger]
                    hashes(k.encoding(), hash) implies !same_path(hash@, path@, at + 1) by {
                    assert(hash@ == route(k.encoding()));
                    if same_path(hash@, path@, at + 1) {
                        assert(same_path(hash@, path@, 0)) by {
                            assert forall|d: nat| 0 <= d < 52 implies #[trigger] bucket(hash@, d)
                                == bucket(path@, d) by {
                                if d <= at {
                                    assert(bucket(route(k.encoding()), d) == bucket(path@, d));
                                }
                            }
                        }
                        same_path_is_same_hash(hash@, path@);
                    }
                }
            }
        }
        assert(result is Ok);
        let previous = result->Ok_0.1;
        assert(lookup(root, store, route(key), key, 0) == value_encoding(previous));
        listed_previous(root, entries, store, route, structural_key, key, value_encoding(previous));
        let changed: &HamtNode<K, V> = &*result->Ok_0.0;
        assert forall|any: spec_fn(StructuralHash) -> HamtNode<K, V>|
            inserted(root, *changed, any, route, structural_key, 0, key, value) by {
            assert(canonical(root, any, route, structural_key, 0));
            assert(readable(load, any, root, 52));
            assert(sound(load, root, any, route, structural_key, 0));
        }
        assert forall|any: spec_fn(StructuralHash) -> HamtNode<K, V>| #[trigger]
            canonical(*changed, any, route, structural_key, 0) by {
            assert(inserted(root, *changed, any, route, structural_key, 0, key, value));
        }
        assert forall|
            any: spec_fn(StructuralHash) -> HamtNode<K, V>,
            k: Seq<u8>,
            v: Seq<u8>,
        | #[trigger] holds(*changed, any, k, v, 0) <==> pair_listed(expected, k, v) by {
            assert(inserted(root, *changed, any, route, structural_key, 0, key, value));
            assert(holds(root, any, k, v, 0) <==> pair_listed(entries, k, v));
        }
        trie_everywhere(*changed, expected, route, structural_key);
    }
}

/// A lookup finds what the entries list.
proof fn listed_previous<K: HamtCodec, V: HamtCodec>(
    root: HamtNode<K, V>,
    entries: Seq<(K, V)>,
    store: spec_fn(StructuralHash) -> HamtNode<K, V>,
    route: spec_fn(Seq<u8>) -> Seq<u8>,
    structural_key: Seq<u8>,
    key: Seq<u8>,
    found: Option<Seq<u8>>,
)
    requires
        trie_of(root, entries, route, structural_key),
        lookup(root, store, route(key), key, 0) == found,
    ensures
        listed_value(entries, key, found),
{
    assert(canonical(root, store, route, structural_key, 0));
    match found {
        Some(value) => {
            lookup_finds(root, store, route, structural_key, key, value, 0);
            assert(holds(root, store, key, value, 0) <==> pair_listed(entries, key, value));
        },
        None => {
            assert forall|value: Seq<u8>| !pair_listed(entries, key, value) by {
                lookup_finds(root, store, route, structural_key, key, value, 0);
                assert(holds(root, store, key, value, 0) <==> pair_listed(entries, key, value));
            }
        },
    }
}

/// Removing a key from the trie of some entries succeeds and gives the value that
/// was listed for the key. The result is the trie of the other entries, as if built
/// from them.
pub proof fn remove_from_built<K: HamtCodec, V: HamtCodec, F, E>(
    hashes: spec_fn(Seq<u8>, StructuralHash) -> bool,
    resolver: F,
    root: HamtNode<K, V>,
    entries: Seq<(K, V)>,
    route: spec_fn(Seq<u8>) -> Seq<u8>,
    structural_key: Seq<u8>,
    key: Seq<u8>,
    result: Result<(Arc<HamtNode<K, V>>, Option<V>), HamtMutateError<E>>,
    expected: Seq<(K, V)>,
) where F: FnMut(&StructuralHash) -> Result<Arc<HamtNode<K, V>>, E>
    requires
        trie_of(root, entries, route, structural_key),
        along(hashes, route),
        remove_outcome::<K, V, F, E>(
            hashes,
            resolver,
            root,
            structural_key,
            route(key),
            key,
            result,
        ),
        forall|k: Seq<u8>, v: Seq<u8>| #[trigger]
            pair_listed(expected, k, v) <==> k != key && pair_listed(entries, k, v),
    ensures
        result matches Ok((changed, removed)) && listed_value(
            entries,
            key,
            value_encoding(removed),
        ) && trie_of(*changed, expected, route, structural_key),
{
    let load = loader::<K, V, E, F>(resolver);
    let store = |hash: StructuralHash| root;
    let path = route(key);
    assert((52 - 0nat) as nat == 52nat);
    assert(canonical(root, store, route, structural_key, 0));
    assert(readable(load, store, root, 52));
    canonical_everywhere_resolved(root, route, structural_key, 0);
    end_on_path(root, store, route, structural_key, path, 0);
    if let Err(HamtMutateError::Resolve(error)) = result {
        let hash = choose|hash: StructuralHash|
            {
                &&& #[trigger] call_ensures(resolver, (&hash,), Err::<Arc<HamtNode<K, V>>, E>(error))
                &&& forall|store: spec_fn(StructuralHash) -> HamtNode<K, V>| #[trigger]
                    readable(load, store, root, (52 - 0nat) as nat) ==> path_loads(
                        load,
                        root,
                        store,
                        path,
                        0,
                        hash,
                    )
            };
        assert(readable(load, store, root, (52 - 0nat) as nat));
        resolved_loads_nothing(load, root, store, route, structural_key, path, 0, hash);
    } else {
        assert(result is Ok);
        let removed = result->Ok_0.1;
        lookup_at_end(root, store, path, key, 0);
        listed_previous(root, entries, store, route, structural_key, key, value_encoding(removed));
        let changed: &HamtNode<K, V> = &*result->Ok_0.0;
        assert forall|any: spec_fn(StructuralHash) -> HamtNode<K, V>|
            taken_out(root, *changed, any, route, structural_key, key) by {
            assert(canonical(root, any, route, structural_key, 0));
            assert(readable(load, any, root, 52));
            assert(sound(load, root, any, route, structural_key, 0));
        }
        assert forall|any: spec_fn(StructuralHash) -> HamtNode<K, V>| #[trigger]
            canonical(*changed, any, route, structural_key, 0) by {
            assert(taken_out(root, *changed, any, route, structural_key, key));
        }
        assert forall|
            any: spec_fn(StructuralHash) -> HamtNode<K, V>,
            k: Seq<u8>,
            v: Seq<u8>,
        | #[trigger] holds(*changed, any, k, v, 0) <==> pair_listed(expected, k, v) by {
            assert(taken_out(root, *changed, any, route, structural_key, key));
            assert(holds(root, any, k, v, 0) <==> pair_listed(entries, k, v));
        }
        trie_everywhere(*changed, expected, route, structural_key);
    }
}

/// Comparing the node hashes of two tries of entries, such as a built one and what
/// an insertion or removal made of it, lists as superseded exactly the hashes of the
/// first that the second has not, and as new exactly the converse.
pub proof fn node_delta_of_built<K: HamtCodec, V: HamtCodec>(
    a: HamtNode<K, V>,
    a_entries: Seq<(K, V)>,
    b: HamtNode<K, V>,
    b_entries: Seq<(K, V)>,
    store: spec_fn(StructuralHash) -> HamtNode<K, V>,
    route: spec_fn(Seq<u8>) -> Seq<u8>,
    structural_key: Seq<u8>,
    delta: NodeHashDelta,
    hash: Seq<u8>,
)
    requires
        trie_of(a, a_entries, route, structural_key),
        trie_of(b, b_entries, route, structural_key),
        no_collisions(a, b, store),
        node_delta_lists(a, b, store, delta),
    ensures
        ({
            let in_a = hash_views(hash_list(a, store, 52)).contains(hash);
            let in_b = hash_views(hash_list(b, store, 52)).contains(hash);
            &&& hash_views(delta.superseded_node_hashes@).contains(hash) <==> in_a && !in_b
            &&& hash_views(delta.new_node_hashes@).contains(hash) <==> in_b && !in_a
        }),
        a.structural_hash@ == b.structural_hash@ ==> delta.superseded_node_hashes@.len() == 0
            && delta.new_node_hashes@.len() == 0,
{
    assert(canonical(a, store, route, structural_key, 0));
    assert(canonical(b, store, route, structural_key, 0));
    node_delta_is_exact(a, b, store, route, structural_key, delta, hash);
}

/// Searching a built trie some of whose nodes were left in a store gives what the
/// entries list for the key, unless loading a node on the key's path fails.
pub proof fn search_of_built<K: HamtCodec, V: HamtCodec, E, F>(
    resolver: F,
    whole: HamtNode<K, V>,
    entries: Seq<(K, V)>,
    partial: HamtNode<K, V>,
    store: spec_fn(StructuralHash) -> HamtNode<K, V>,
    route: spec_fn(Seq<u8>) -> Seq<u8>,
    structural_key: Seq<u8>,
    key: Seq<u8>,
    found: Result<Option<V>, E>,
) where F: FnMut(&StructuralHash) -> Result<Arc<HamtNode<K, V>>, E>
    requires
        trie_of(whole, entries, route, structural_key),
        unloads(whole, partial, store, 52),
        readable(loader::<K, V, E, F>(resolver), store, partial, 52),
        search_outcome::<K, V, E, F>(resolver, partial, route(key), key, found),
    ensures
        match found {
            Ok(value) => {
                &&& value_encoding(value) == value_encoding(resident(whole, route(key), key, 0))
                &&& listed_value(entries, key, value_encoding(value))
            },
            Err(error) => path_fails::<K, V, E, F>(resolver, partial, route(key), 0, error),
        },
{
    assert((52 - 0nat) as nat == 52nat);
    lookup_in_part(whole, partial, store, route(key), key, 0);
    if let Ok(value) = found {
        let listed = value_encoding(value);
        match listed {
            Some(v) => {
                built_lookup(whole, entries, route, structural_key, key, v);
            },
            None => {
                assert forall|v: Seq<u8>| !pair_listed(entries, key, v) by {
                    built_lookup(whole, entries, route, structural_key, key, v);
                }
            },
        }
    }
}

} // verus!
