//! What the difference of two tries' node hashes is worth to a store that counts
//! references.

use vstd::prelude::*;
use super::bitmap::{disjoint_slots, rank, rank_monotone, select_facts, select_slot, slot_set};
use super::codec::HamtCodec;
use super::delta::{hash_diff_upto, hash_list, hashes_upto, node_delta_lists, NodeHashDelta};
use super::hash::StructuralHash;
use super::mutate::{inserted, taken_out};
use super::node::{
    bucket, bucket_range, canonical, canonical_slot, canonical_unique, child_agrees, dense,
    dense_holds_two, entry_slot, hash_views, holds, is_slot, node_at, node_in_slot, ref_hash,
    ref_hashes, same_entries, slot_in_node, HamtNode,
};
use super::store::{node_records, spine};

verus! {

/// A node stands in a trie at a depth.
pub open spec fn occurs<K: HamtCodec, V: HamtCodec>(
    node: HamtNode<K, V>,
    store: spec_fn(StructuralHash) -> HamtNode<K, V>,
    depth: nat,
    x: HamtNode<K, V>,
    at: nat,
) -> bool
    decreases 52 - depth,
{
    ||| at == depth && x == node
    ||| depth < 52 && exists|slot: int| #[trigger]
        is_slot(slot) && slot_set(node.nodemap, slot) && occurs(
            node_at(node.child(slot), store),
            store,
            depth + 1,
            x,
            at,
        )
}

/// A trie has a node with the hash.
pub open spec fn has_node<K: HamtCodec, V: HamtCodec>(
    node: HamtNode<K, V>,
    store: spec_fn(StructuralHash) -> HamtNode<K, V>,
    depth: nat,
    hash: Seq<u8>,
) -> bool {
    exists|x: HamtNode<K, V>, at: nat| #[trigger]
        occurs(node, store, depth, x, at) && x.structural_hash@ == hash
}

/// Two nodes have the same bitmaps, the same encoded leaves and children with
/// the same hashes.
pub open spec fn same_contents<K: HamtCodec, V: HamtCodec>(
    x: HamtNode<K, V>,
    y: HamtNode<K, V>,
) -> bool {
    &&& x.datamap == y.datamap
    &&& x.nodemap == y.nodemap
    &&& ref_hashes(x.children@) == ref_hashes(y.children@)
    &&& x.leaves@.len() == y.leaves@.len()
    &&& forall|i: int|
        0 <= i < x.leaves@.len() ==> (#[trigger] x.leaves@[i]).0.encoding()
            == y.leaves@[i].0.encoding() && x.leaves@[i].1.encoding() == y.leaves@[i].1.encoding()
}

/// No node of one trie has the digest of a node of the other with different
/// contents.
pub open spec fn no_collisions<K: HamtCodec, V: HamtCodec>(
    a: HamtNode<K, V>,
    b: HamtNode<K, V>,
    store: spec_fn(StructuralHash) -> HamtNode<K, V>,
) -> bool {
    forall|x: HamtNode<K, V>, y: HamtNode<K, V>, m: nat, n: nat|
        #![trigger occurs(a, store, 0, x, m), occurs(b, store, 0, y, n)]
        occurs(a, store, 0, x, m) && occurs(b, store, 0, y, n) && x.structural_hash@
            == y.structural_hash@ ==> same_contents(x, y)
}

proof fn occurs_itself<K: HamtCodec, V: HamtCodec>(
    node: HamtNode<K, V>,
    store: spec_fn(StructuralHash) -> HamtNode<K, V>,
    depth: nat,
)
    ensures
        occurs(node, store, depth, node, depth),
{
}

/// A child of a node that occurs occurs, one level further down.
proof fn occurs_child<K: HamtCodec, V: HamtCodec>(
    node: HamtNode<K, V>,
    store: spec_fn(StructuralHash) -> HamtNode<K, V>,
    depth: nat,
    x: HamtNode<K, V>,
    at: nat,
    slot: int,
)
    requires
        occurs(node, store, depth, x, at),
        at < 52,
        0 <= slot < 32,
        slot_set(x.nodemap, slot),
    ensures
        occurs(node, store, depth, node_at(x.child(slot), store), at + 1),
    decreases 52 - depth,
{
    let child = node_at(x.child(slot), store);
    if at == depth && x == node {
        occurs_itself(child, store, depth + 1);
        assert(is_slot(slot));
    } else {
        let s = choose|s: int| #[trigger]
            is_slot(s) && slot_set(node.nodemap, s) && occurs(
                node_at(node.child(s), store),
                store,
                depth + 1,
                x,
                at,
            );
        occurs_child(node_at(node.child(s), store), store, depth + 1, x, at, slot);
        assert(is_slot(s));
    }
}

/// A node of a canonical trie is canonical at its depth, and dense below the root.
proof fn occurs_canonical<K: HamtCodec, V: HamtCodec>(
    node: HamtNode<K, V>,
    store: spec_fn(StructuralHash) -> HamtNode<K, V>,
    route: spec_fn(Seq<u8>) -> Seq<u8>,
    structural_key: Seq<u8>,
    depth: nat,
    x: HamtNode<K, V>,
    at: nat,
)
    requires
        canonical(node, store, route, structural_key, depth),
        occurs(node, store, depth, x, at),
    ensures
        depth <= at < 52,
        canonical(x, store, route, structural_key, at),
        at > depth ==> dense(x),
        at == depth ==> x == node,
    decreases 52 - depth,
{
    if !(at == depth && x == node) {
        let s = choose|s: int| #[trigger]
            is_slot(s) && slot_set(node.nodemap, s) && occurs(
                node_at(node.child(s), store),
                store,
                depth + 1,
                x,
                at,
            );
        canonical_slot(node, store, route, structural_key, depth, s);
        occurs_canonical(
            node_at(node.child(s), store),
            store,
            route,
            structural_key,
            depth + 1,
            x,
            at,
        );
    }
}

/// What a node of a trie holds, the trie holds.
proof fn occurs_holds<K: HamtCodec, V: HamtCodec>(
    node: HamtNode<K, V>,
    store: spec_fn(StructuralHash) -> HamtNode<K, V>,
    route: spec_fn(Seq<u8>) -> Seq<u8>,
    structural_key: Seq<u8>,
    depth: nat,
    x: HamtNode<K, V>,
    at: nat,
    key: Seq<u8>,
    value: Seq<u8>,
)
    requires
        canonical(node, store, route, structural_key, depth),
        occurs(node, store, depth, x, at),
        holds(x, store, key, value, at),
    ensures
        holds(node, store, key, value, depth),
    decreases 52 - depth,
{
    if !(at == depth && x == node) {
        let s = choose|s: int| #[trigger]
            is_slot(s) && slot_set(node.nodemap, s) && occurs(
                node_at(node.child(s), store),
                store,
                depth + 1,
                x,
                at,
            );
        canonical_slot(node, store, route, structural_key, depth, s);
        occurs_holds(
            node_at(node.child(s), store),
            store,
            route,
            structural_key,
            depth + 1,
            x,
            at,
            key,
            value,
        );
        disjoint_slots(node.datamap, node.nodemap, s);
        slot_in_node(node, store, key, value, depth, s);
    }
}

/// The keys of a node that occurs share their way down to it.
proof fn shared_way<K: HamtCodec, V: HamtCodec>(
    node: HamtNode<K, V>,
    store: spec_fn(StructuralHash) -> HamtNode<K, V>,
    route: spec_fn(Seq<u8>) -> Seq<u8>,
    structural_key: Seq<u8>,
    depth: nat,
    x: HamtNode<K, V>,
    at: nat,
    a: (Seq<u8>, Seq<u8>),
    b: (Seq<u8>, Seq<u8>),
    level: nat,
)
    requires
        canonical(node, store, route, structural_key, depth),
        occurs(node, store, depth, x, at),
        holds(x, store, a.0, a.1, at),
        holds(x, store, b.0, b.1, at),
        depth <= level < at,
    ensures
        bucket(route(a.0), level) == bucket(route(b.0), level),
    decreases 52 - depth,
{
    let s = choose|s: int| #[trigger]
        is_slot(s) && slot_set(node.nodemap, s) && occurs(
            node_at(node.child(s), store),
            store,
            depth + 1,
            x,
            at,
        );
    let child = node_at(node.child(s), store);
    canonical_slot(node, store, route, structural_key, depth, s);
    if level == depth {
        occurs_holds(child, store, route, structural_key, depth + 1, x, at, a.0, a.1);
        occurs_holds(child, store, route, structural_key, depth + 1, x, at, b.0, b.1);
    } else {
        shared_way(child, store, route, structural_key, depth + 1, x, at, a, b, level);
    }
}

/// Children in the same slot of nodes with the same contents have the same hash.
proof fn children_match<K: HamtCodec, V: HamtCodec>(
    x: HamtNode<K, V>,
    y: HamtNode<K, V>,
    store: spec_fn(StructuralHash) -> HamtNode<K, V>,
    route: spec_fn(Seq<u8>) -> Seq<u8>,
    structural_key: Seq<u8>,
    m: nat,
    n: nat,
    slot: int,
)
    requires
        canonical(x, store, route, structural_key, m),
        canonical(y, store, route, structural_key, n),
        same_contents(x, y),
        0 <= slot < 32,
        slot_set(x.nodemap, slot),
    ensures
        m < 51,
        n < 51,
        node_at(x.child(slot), store).structural_hash@ == node_at(
            y.child(slot),
            store,
        ).structural_hash@,
{
    canonical_slot(x, store, route, structural_key, m, slot);
    canonical_slot(y, store, route, structural_key, n, slot);
    rank_monotone(x.nodemap, slot + 1, 32);
    let i = rank(x.nodemap, slot) as int;
    assert(ref_hashes(x.children@)[i] == ref_hash(x.children@[i]));
    assert(ref_hashes(y.children@)[i] == ref_hash(y.children@[i]));
}

/// Nodes with the same hash hold the same entries, wherever they stand.
proof fn hash_decides_entries<K: HamtCodec, V: HamtCodec>(
    a: HamtNode<K, V>,
    b: HamtNode<K, V>,
    store: spec_fn(StructuralHash) -> HamtNode<K, V>,
    route: spec_fn(Seq<u8>) -> Seq<u8>,
    structural_key: Seq<u8>,
    x: HamtNode<K, V>,
    m: nat,
    y: HamtNode<K, V>,
    n: nat,
    key: Seq<u8>,
    value: Seq<u8>,
)
    requires
        canonical(a, store, route, structural_key, 0),
        canonical(b, store, route, structural_key, 0),
        no_collisions(a, b, store),
        occurs(a, store, 0, x, m),
        occurs(b, store, 0, y, n),
        x.structural_hash@ == y.structural_hash@,
    ensures
        holds(x, store, key, value, m) <==> holds(y, store, key, value, n),
    decreases 52 - m,
{
    assert(same_contents(x, y));
    occurs_canonical(a, store, route, structural_key, 0, x, m);
    occurs_canonical(b, store, route, structural_key, 0, y, n);
    assert forall|slot: int| 0 <= slot < 32 && slot_set(x.nodemap, slot) implies (
    #[trigger] holds(node_at(x.child(slot), store), store, key, value, m + 1) <==> holds(
        node_at(y.child(slot), store),
        store,
        key,
        value,
        n + 1,
    )) by {
        children_match(x, y, store, route, structural_key, m, n, slot);
        occurs_child(a, store, 0, x, m, slot);
        occurs_child(b, store, 0, y, n, slot);
        hash_decides_entries(
            a,
            b,
            store,
            route,
            structural_key,
            node_at(x.child(slot), store),
            m + 1,
            node_at(y.child(slot), store),
            n + 1,
            key,
            value,
        );
    }
    if holds(x, store, key, value, m) {
        let slot = node_in_slot(x, store, key, value, m);
        if slot_set(x.datamap, slot) {
            rank_monotone(x.datamap, slot + 1, 32);
            assert(x.leaves@[rank(x.datamap, slot) as int].0.encoding() == key);
        }
        slot_in_node(y, store, key, value, n, slot);
    }
    if holds(y, store, key, value, n) {
        let slot = node_in_slot(y, store, key, value, n);
        if slot_set(y.datamap, slot) {
            rank_monotone(x.datamap, slot + 1, 32);
            assert(x.leaves@[rank(x.datamap, slot) as int].0.encoding() == key);
        }
        slot_in_node(x, store, key, value, m, slot);
    }
}

/// A node cannot stand deeper in one trie than in the other.
proof fn hash_decides_depth<K: HamtCodec, V: HamtCodec>(
    a: HamtNode<K, V>,
    b: HamtNode<K, V>,
    store: spec_fn(StructuralHash) -> HamtNode<K, V>,
    route: spec_fn(Seq<u8>) -> Seq<u8>,
    structural_key: Seq<u8>,
    x: HamtNode<K, V>,
    m: nat,
    y: HamtNode<K, V>,
    n: nat,
)
    requires
        canonical(a, store, route, structural_key, 0),
        canonical(b, store, route, structural_key, 0),
        no_collisions(a, b, store),
        occurs(a, store, 0, x, m),
        occurs(b, store, 0, y, n),
        x.structural_hash@ == y.structural_hash@,
    ensures
        n <= m,
    decreases 52 - n,
{
    assert(same_contents(x, y));
    occurs_canonical(a, store, route, structural_key, 0, x, m);
    occurs_canonical(b, store, route, structural_key, 0, y, n);
    if m < n {
        let (p, q) = dense_holds_two(y, store, route, structural_key, n);
        shared_way(b, store, route, structural_key, 0, y, n, p, q, m);
        hash_decides_entries(a, b, store, route, structural_key, x, m, y, n, p.0, p.1);
        hash_decides_entries(a, b, store, route, structural_key, x, m, y, n, q.0, q.1);
        let slot = bucket(route(p.0), m);
        bucket_range(route(p.0), m);
        entry_slot(x, store, route, structural_key, p.0, p.1, m);
        entry_slot(x, store, route, structural_key, q.0, q.1, m);
        assert(slot_set(x.nodemap, slot));
        children_match(x, y, store, route, structural_key, m, n, slot);
        occurs_child(a, store, 0, x, m, slot);
        occurs_child(b, store, 0, y, n, slot);
        hash_decides_depth(
            a,
            b,
            store,
            route,
            structural_key,
            node_at(x.child(slot), store),
            m + 1,
            node_at(y.child(slot), store),
            n + 1,
        );
    }
}

/// The node at a depth on a path.
pub open spec fn on_path<K: HamtCodec, V: HamtCodec>(
    node: HamtNode<K, V>,
    store: spec_fn(StructuralHash) -> HamtNode<K, V>,
    path: Seq<u8>,
    depth: nat,
    at: nat,
) -> Option<HamtNode<K, V>>
    decreases 52 - depth,
{
    if at == depth {
        Some(node)
    } else if depth < 52 && slot_set(node.nodemap, bucket(path, depth)) {
        on_path(
            node_at(node.child(bucket(path, depth)), store),
            store,
            path,
            depth + 1,
            at,
        )
    } else {
        None
    }
}

/// A node stands on the path of every key that it holds.
proof fn stands_on_path<K: HamtCodec, V: HamtCodec>(
    node: HamtNode<K, V>,
    store: spec_fn(StructuralHash) -> HamtNode<K, V>,
    route: spec_fn(Seq<u8>) -> Seq<u8>,
    structural_key: Seq<u8>,
    depth: nat,
    x: HamtNode<K, V>,
    at: nat,
    key: Seq<u8>,
    value: Seq<u8>,
)
    requires
        canonical(node, store, route, structural_key, depth),
        occurs(node, store, depth, x, at),
        holds(x, store, key, value, at),
    ensures
        on_path(node, store, route(key), depth, at) == Some(x),
    decreases 52 - depth,
{
    occurs_canonical(node, store, route, structural_key, depth, x, at);
    if at > depth {
        let s = choose|s: int| #[trigger]
            is_slot(s) && slot_set(node.nodemap, s) && occurs(
                node_at(node.child(s), store),
                store,
                depth + 1,
                x,
                at,
            );
        let child = node_at(node.child(s), store);
        canonical_slot(node, store, route, structural_key, depth, s);
        occurs_holds(child, store, route, structural_key, depth + 1, x, at, key, value);
        stands_on_path(child, store, route, structural_key, depth + 1, x, at, key, value);
    }
}

/// A node of the first trie whose place in the second is empty or taken by a
/// node with another hash.
pub open spec fn replaced<K: HamtCodec, V: HamtCodec>(
    a: HamtNode<K, V>,
    b: HamtNode<K, V>,
    store: spec_fn(StructuralHash) -> HamtNode<K, V>,
    route: spec_fn(Seq<u8>) -> Seq<u8>,
    depth: nat,
    x: HamtNode<K, V>,
    at: nat,
) -> bool {
    &&& occurs(a, store, depth, x, at)
    &&& at == depth ==> x.structural_hash@ != b.structural_hash@
    &&& forall|key: Seq<u8>, value: Seq<u8>| #[trigger]
        holds(x, store, key, value, at) ==> (on_path(b, store, route(key), depth, at) matches Some(
            y,
        ) ==> y.structural_hash@ != x.structural_hash@)
}

/// The hashes of the nodes of a canonical trie are those that a walk lists.
proof fn listed_nodes<K: HamtCodec, V: HamtCodec>(
    node: HamtNode<K, V>,
    store: spec_fn(StructuralHash) -> HamtNode<K, V>,
    route: spec_fn(Seq<u8>) -> Seq<u8>,
    structural_key: Seq<u8>,
    depth: nat,
    n: nat,
    hash: Seq<u8>,
)
    requires
        canonical(node, store, route, structural_key, depth),
        n <= node.children@.len(),
    ensures
        hash_views(hashes_upto(node, store, (52 - depth) as nat, n)).contains(hash) <==> {
            ||| node.structural_hash@ == hash
            ||| exists|i: int|
                0 <= i < n && has_node(
                    node_at(#[trigger] node.children@[i], store),
                    store,
                    depth + 1,
                    hash,
                )
        },
    decreases 52 - depth, n,
{
    let levels = (52 - depth) as nat;
    let list = hashes_upto(node, store, levels, n);
    if n == 0 {
        assert(hash_views(list) =~= seq![node.structural_hash@]);
        assert(hash_views(list)[0] == node.structural_hash@);
    } else {
        let m = (n - 1) as nat;
        listed_nodes(node, store, route, structural_key, depth, m, hash);
        let slot = select_slot(node.nodemap, m as int);
        select_facts(node.nodemap, m as int);
        canonical_slot(node, store, route, structural_key, depth, slot);
        let child = node_at(node.children@[m as int], store);
        assert(child == node_at(node.child(slot), store));
        assert((52 - (depth + 1)) as nat == (levels - 1) as nat);
        listed_nodes(
            child,
            store,
            route,
            structural_key,
            depth + 1,
            child.children@.len(),
            hash,
        );
        node_listed(child, store, route, structural_key, depth + 1, hash);
        let first = hashes_upto(node, store, levels, m);
        let more = hash_list(child, store, (levels - 1) as nat);
        assert(list == first + more);
        views_concat(first, more, hash);
        if exists|i: int|
            0 <= i < n && has_node(
                node_at(#[trigger] node.children@[i], store),
                store,
                depth + 1,
                hash,
            ) {
            let i = choose|i: int|
                0 <= i < n && has_node(
                    node_at(#[trigger] node.children@[i], store),
                    store,
                    depth + 1,
                    hash,
                );
            if i < m {
                assert(has_node(node_at(node.children@[i], store), store, depth + 1, hash));
            }
        }
    }
}

proof fn views_concat(a: Seq<StructuralHash>, b: Seq<StructuralHash>, hash: Seq<u8>)
    ensures
        hash_views(a + b).contains(hash) <==> hash_views(a).contains(hash) || hash_views(
            b,
        ).contains(hash),
{
    let all = hash_views(a + b);
    if hash_views(a).contains(hash) {
        let i = choose|i: int| 0 <= i < a.len() && hash_views(a)[i] == hash;
        assert(all[i] == hash);
    }
    if hash_views(b).contains(hash) {
        let i = choose|i: int| 0 <= i < b.len() && hash_views(b)[i] == hash;
        assert(all[a.len() + i] == hash);
    }
    if all.contains(hash) {
        let i = choose|i: int| 0 <= i < all.len() && all[i] == hash;
        if i < a.len() {
            assert(hash_views(a)[i] == hash);
        } else {
            assert(hash_views(b)[i - a.len()] == hash);
        }
    }
}

/// A node has its own hash and those below its child slots.
proof fn node_listed<K: HamtCodec, V: HamtCodec>(
    node: HamtNode<K, V>,
    store: spec_fn(StructuralHash) -> HamtNode<K, V>,
    route: spec_fn(Seq<u8>) -> Seq<u8>,
    structural_key: Seq<u8>,
    depth: nat,
    hash: Seq<u8>,
)
    requires
        canonical(node, store, route, structural_key, depth),
    ensures
        has_node(node, store, depth, hash) <==> {
            ||| node.structural_hash@ == hash
            ||| exists|i: int|
                0 <= i < node.children@.len() && has_node(
                    node_at(#[trigger] node.children@[i], store),
                    store,
                    depth + 1,
                    hash,
                )
        },
{
    if node.structural_hash@ == hash {
        occurs_itself(node, store, depth);
        assert(occurs(node, store, depth, node, depth));
    }
    if exists|i: int|
        0 <= i < node.children@.len() && has_node(
            node_at(#[trigger] node.children@[i], store),
            store,
            depth + 1,
            hash,
        ) {
        let i = choose|i: int|
            0 <= i < node.children@.len() && has_node(
                node_at(#[trigger] node.children@[i], store),
                store,
                depth + 1,
                hash,
            );
        let slot = select_slot(node.nodemap, i);
        select_facts(node.nodemap, i);
        let child = node_at(node.children@[i], store);
        assert(child == node_at(node.child(slot), store));
        let (x, at) = choose|x: HamtNode<K, V>, at: nat| #[trigger]
            occurs(child, store, depth + 1, x, at) && x.structural_hash@ == hash;
        assert(is_slot(slot));
        assert(occurs(node, store, depth, x, at));
    }
    if has_node(node, store, depth, hash) {
        let (x, at) = choose|x: HamtNode<K, V>, at: nat| #[trigger]
            occurs(node, store, depth, x, at) && x.structural_hash@ == hash;
        if !(at == depth && x == node) {
            let s = choose|s: int| #[trigger]
                is_slot(s) && slot_set(node.nodemap, s) && occurs(
                    node_at(node.child(s), store),
                    store,
                    depth + 1,
                    x,
                    at,
                );
            rank_monotone(node.nodemap, s + 1, 32);
            let i = rank(node.nodemap, s) as int;
            assert(node_at(node.children@[i], store) == node_at(node.child(s), store));
            assert(has_node(node_at(node.children@[i], store), store, depth + 1, hash));
        }
    }
}

/// A walk lists exactly the hashes of the nodes of a canonical trie.
pub proof fn walk_lists_nodes<K: HamtCodec, V: HamtCodec>(
    node: HamtNode<K, V>,
    store: spec_fn(StructuralHash) -> HamtNode<K, V>,
    route: spec_fn(Seq<u8>) -> Seq<u8>,
    structural_key: Seq<u8>,
    depth: nat,
    hash: Seq<u8>,
)
    requires
        canonical(node, store, route, structural_key, depth),
    ensures
        hash_views(hash_list(node, store, (52 - depth) as nat)).contains(hash) <==> has_node(
            node,
            store,
            depth,
            hash,
        ),
{
    listed_nodes(node, store, route, structural_key, depth, node.children@.len(), hash);
    node_listed(node, store, route, structural_key, depth, hash);
}

/// Nodes with the same hash at the same depth have the same nodes below them.
proof fn hash_decides_nodes<K: HamtCodec, V: HamtCodec>(
    a: HamtNode<K, V>,
    b: HamtNode<K, V>,
    store: spec_fn(StructuralHash) -> HamtNode<K, V>,
    route: spec_fn(Seq<u8>) -> Seq<u8>,
    structural_key: Seq<u8>,
    x: HamtNode<K, V>,
    y: HamtNode<K, V>,
    depth: nat,
    hash: Seq<u8>,
)
    requires
        canonical(a, store, route, structural_key, 0),
        canonical(b, store, route, structural_key, 0),
        no_collisions(a, b, store),
        occurs(a, store, 0, x, depth),
        occurs(b, store, 0, y, depth),
        x.structural_hash@ == y.structural_hash@,
    ensures
        has_node(x, store, depth, hash) <==> has_node(y, store, depth, hash),
    decreases 52 - depth,
{
    assert(same_contents(x, y));
    occurs_canonical(a, store, route, structural_key, 0, x, depth);
    occurs_canonical(b, store, route, structural_key, 0, y, depth);
    node_listed(x, store, route, structural_key, depth, hash);
    node_listed(y, store, route, structural_key, depth, hash);
    assert(ref_hashes(x.children@).len() == ref_hashes(y.children@).len());
    assert forall|i: int| 0 <= i < x.children@.len() implies (has_node(
        node_at(#[trigger] x.children@[i], store),
        store,
        depth + 1,
        hash,
    ) <==> has_node(node_at(y.children@[i], store), store, depth + 1, hash)) by {
        let slot = select_slot(x.nodemap, i);
        select_facts(x.nodemap, i);
        assert(x.children@[i] == x.child(slot) && y.children@[i] == y.child(slot));
        children_match(x, y, store, route, structural_key, depth, depth, slot);
        occurs_child(a, store, 0, x, depth, slot);
        occurs_child(b, store, 0, y, depth, slot);
        hash_decides_nodes(
            a,
            b,
            store,
            route,
            structural_key,
            node_at(x.child(slot), store),
            node_at(y.child(slot), store),
            depth + 1,
            hash,
        );
    }
    if exists|i: int|
        0 <= i < y.children@.len() && has_node(
            node_at(#[trigger] y.children@[i], store),
            store,
            depth + 1,
            hash,
        ) {
        let i = choose|i: int|
            0 <= i < y.children@.len() && has_node(
                node_at(#[trigger] y.children@[i], store),
                store,
                depth + 1,
                hash,
            );
        assert(has_node(node_at(x.children@[i], store), store, depth + 1, hash));
    }
}

/// A hash below a child slot is listed as superseded.
spec fn slot_gone<K: HamtCodec, V: HamtCodec>(
    a: HamtNode<K, V>,
    b: HamtNode<K, V>,
    store: spec_fn(StructuralHash) -> HamtNode<K, V>,
    levels: nat,
    slot: int,
    hash: Seq<u8>,
) -> bool {
    let ca = node_at(a.child(slot), store);
    let cb = node_at(b.child(slot), store);
    let below = (levels - 1) as nat;
    &&& slot_set(a.nodemap, slot)
    &&& if slot_set(b.nodemap, slot) {
        &&& ref_hash(a.child(slot)) != ref_hash(b.child(slot))
        &&& ca.structural_hash@ != cb.structural_hash@
        &&& hash_views(hash_diff_upto(ca, cb, store, below, 32).0).contains(hash)
    } else {
        hash_views(hash_list(ca, store, below)).contains(hash)
    }
}

proof fn gone_by_slot<K: HamtCodec, V: HamtCodec>(
    a: HamtNode<K, V>,
    b: HamtNode<K, V>,
    store: spec_fn(StructuralHash) -> HamtNode<K, V>,
    levels: nat,
    n: nat,
    hash: Seq<u8>,
)
    requires
        levels > 0,
    ensures
        hash_views(hash_diff_upto(a, b, store, levels, n).0).contains(hash) <==> {
            ||| a.structural_hash@ == hash
            ||| exists|slot: int| 0 <= slot < n && slot_gone(a, b, store, levels, slot, hash)
        },
    decreases n,
{
    let list = hash_diff_upto(a, b, store, levels, n).0;
    if n == 0 {
        assert(hash_views(list) =~= seq![a.structural_hash@]);
        assert(hash_views(list)[0] == a.structural_hash@);
    } else {
        let m = (n - 1) as nat;
        gone_by_slot(a, b, store, levels, m, hash);
        let slot = n - 1;
        let ca = node_at(a.child(slot), store);
        let cb = node_at(b.child(slot), store);
        let below = (levels - 1) as nat;
        let seen = hash_diff_upto(a, b, store, levels, m).0;
        views_concat(seen, hash_diff_upto(ca, cb, store, below, 32).0, hash);
        views_concat(seen, hash_list(ca, store, below), hash);
        assert(slot_gone(a, b, store, levels, slot, hash) ==> hash_views(list).contains(hash));
    }
}

/// A superseded hash is that of a replaced node, and every hash that the second
/// node lacks is listed.
proof fn superseded_nodes<K: HamtCodec, V: HamtCodec>(
    a: HamtNode<K, V>,
    b: HamtNode<K, V>,
    store: spec_fn(StructuralHash) -> HamtNode<K, V>,
    route: spec_fn(Seq<u8>) -> Seq<u8>,
    structural_key: Seq<u8>,
    x: HamtNode<K, V>,
    y: HamtNode<K, V>,
    depth: nat,
    hash: Seq<u8>,
)
    requires
        canonical(a, store, route, structural_key, 0),
        canonical(b, store, route, structural_key, 0),
        no_collisions(a, b, store),
        occurs(a, store, 0, x, depth),
        occurs(b, store, 0, y, depth),
        x.structural_hash@ != y.structural_hash@,
    ensures
        ({
            let gone = hash_views(hash_diff_upto(x, y, store, (52 - depth) as nat, 32).0);
            &&& gone.contains(hash) ==> exists|n: HamtNode<K, V>, at: nat| #[trigger]
                replaced(x, y, store, route, depth, n, at) && n.structural_hash@ == hash
            &&& has_node(x, store, depth, hash) && !has_node(y, store, depth, hash)
                ==> gone.contains(hash)
        }),
    decreases 52 - depth, 1int,
{
    let levels = (52 - depth) as nat;
    let below = (levels - 1) as nat;
    let gone = hash_views(hash_diff_upto(x, y, store, levels, 32).0);
    occurs_canonical(a, store, route, structural_key, 0, x, depth);
    occurs_canonical(b, store, route, structural_key, 0, y, depth);
    assert((52 - (depth + 1)) as nat == below);
    gone_by_slot(x, y, store, levels, 32, hash);
    if gone.contains(hash) {
        if x.structural_hash@ == hash {
            occurs_itself(x, store, depth);
            assert(replaced(x, y, store, route, depth, x, depth));
        } else {
            let slot = choose|slot: int|
                0 <= slot < 32 && slot_gone(x, y, store, levels, slot, hash);
            gone_below(a, b, store, route, structural_key, x, y, depth, slot, hash);
        }
    }
    if has_node(x, store, depth, hash) && !has_node(y, store, depth, hash) && x.structural_hash@
        != hash {
        node_listed(x, store, route, structural_key, depth, hash);
        node_listed(y, store, route, structural_key, depth, hash);
        let i = choose|i: int|
            0 <= i < x.children@.len() && has_node(
                node_at(#[trigger] x.children@[i], store),
                store,
                depth + 1,
                hash,
            );
        let slot = select_slot(x.nodemap, i);
        select_facts(x.nodemap, i);
        let cx = node_at(x.child(slot), store);
        let cy = node_at(y.child(slot), store);
        assert(x.children@[i] == x.child(slot));
        canonical_slot(x, store, route, structural_key, depth, slot);
        canonical_slot(y, store, route, structural_key, depth, slot);
        occurs_child(a, store, 0, x, depth, slot);
        if slot_set(y.nodemap, slot) {
            occurs_child(b, store, 0, y, depth, slot);
            rank_monotone(y.nodemap, slot + 1, 32);
            let j = rank(y.nodemap, slot) as int;
            assert(node_at(y.children@[j], store) == cy);
            assert(!has_node(node_at(y.children@[j], store), store, depth + 1, hash));
            if cx.structural_hash@ == cy.structural_hash@ {
                hash_decides_nodes(
                    a,
                    b,
                    store,
                    route,
                    structural_key,
                    cx,
                    cy,
                    depth + 1,
                    hash,
                );
            }
            superseded_nodes(a, b, store, route, structural_key, cx, cy, depth + 1, hash);
        } else {
            walk_lists_nodes(cx, store, route, structural_key, depth + 1, hash);
        }
        assert(slot_gone(x, y, store, levels, slot, hash));
    }
}

/// A superseded hash below a child slot is that of a replaced node.
proof fn gone_below<K: HamtCodec, V: HamtCodec>(
    a: HamtNode<K, V>,
    b: HamtNode<K, V>,
    store: spec_fn(StructuralHash) -> HamtNode<K, V>,
    route: spec_fn(Seq<u8>) -> Seq<u8>,
    structural_key: Seq<u8>,
    x: HamtNode<K, V>,
    y: HamtNode<K, V>,
    depth: nat,
    slot: int,
    hash: Seq<u8>,
)
    requires
        canonical(a, store, route, structural_key, 0),
        canonical(b, store, route, structural_key, 0),
        no_collisions(a, b, store),
        occurs(a, store, 0, x, depth),
        occurs(b, store, 0, y, depth),
        canonical(x, store, route, structural_key, depth),
        canonical(y, store, route, structural_key, depth),
        0 <= slot < 32,
        slot_gone(x, y, store, (52 - depth) as nat, slot, hash),
    ensures
        exists|n: HamtNode<K, V>, at: nat| #[trigger]
            replaced(x, y, store, route, depth, n, at) && n.structural_hash@ == hash,
    decreases 52 - depth, 0int,
{
    let cx = node_at(x.child(slot), store);
    let cy = node_at(y.child(slot), store);
    canonical_slot(x, store, route, structural_key, depth, slot);
    canonical_slot(y, store, route, structural_key, depth, slot);
    occurs_child(a, store, 0, x, depth, slot);
    assert((52 - (depth + 1)) as nat == ((52 - depth) as nat - 1) as nat);
    assert(is_slot(slot));
    if slot_set(y.nodemap, slot) {
        occurs_child(b, store, 0, y, depth, slot);
        superseded_nodes(a, b, store, route, structural_key, cx, cy, depth + 1, hash);
        let (n, at) = choose|n: HamtNode<K, V>, at: nat| #[trigger]
            replaced(cx, cy, store, route, depth + 1, n, at) && n.structural_hash@ == hash;
        occurs_canonical(cx, store, route, structural_key, depth + 1, n, at);
        assert(occurs(x, store, depth, n, at));
        assert forall|key: Seq<u8>, value: Seq<u8>| #[trigger]
            holds(n, store, key, value, at) implies (on_path(
            y,
            store,
            route(key),
            depth,
            at,
        ) matches Some(found) ==> found.structural_hash@ != n.structural_hash@) by {
            occurs_holds(cx, store, route, structural_key, depth + 1, n, at, key, value);
            assert(bucket(route(key), depth) == slot);
        }
        assert(replaced(x, y, store, route, depth, n, at));
    } else {
        walk_lists_nodes(cx, store, route, structural_key, depth + 1, hash);
        let (n, at) = choose|n: HamtNode<K, V>, at: nat| #[trigger]
            occurs(cx, store, depth + 1, n, at) && n.structural_hash@ == hash;
        occurs_canonical(cx, store, route, structural_key, depth + 1, n, at);
        assert(occurs(x, store, depth, n, at));
        assert forall|key: Seq<u8>, value: Seq<u8>| #[trigger]
            holds(n, store, key, value, at) implies (on_path(
            y,
            store,
            route(key),
            depth,
            at,
        ) matches Some(found) ==> found.structural_hash@ != n.structural_hash@) by {
            occurs_holds(cx, store, route, structural_key, depth + 1, n, at, key, value);
            assert(bucket(route(key), depth) == slot);
        }
        assert(replaced(x, y, store, route, depth, n, at));
    }
}

/// The two sides of the difference change places with the tries.
pub proof fn hash_diff_symmetric<K: HamtCodec, V: HamtCodec>(
    a: HamtNode<K, V>,
    b: HamtNode<K, V>,
    store: spec_fn(StructuralHash) -> HamtNode<K, V>,
    levels: nat,
    n: nat,
)
    ensures
        hash_diff_upto(b, a, store, levels, n) == (
            hash_diff_upto(a, b, store, levels, n).1,
            hash_diff_upto(a, b, store, levels, n).0,
        ),
    decreases levels, n,
{
    if levels > 0 && n > 0 {
        hash_diff_symmetric(a, b, store, levels, (n - 1) as nat);
        let slot = n - 1;
        hash_diff_symmetric(
            node_at(a.child(slot), store),
            node_at(b.child(slot), store),
            store,
            (levels - 1) as nat,
            32,
        );
    }
}

/// A replaced node occurs nowhere in the other trie.
proof fn replaced_is_gone<K: HamtCodec, V: HamtCodec>(
    a: HamtNode<K, V>,
    b: HamtNode<K, V>,
    store: spec_fn(StructuralHash) -> HamtNode<K, V>,
    route: spec_fn(Seq<u8>) -> Seq<u8>,
    structural_key: Seq<u8>,
    x: HamtNode<K, V>,
    at: nat,
)
    requires
        canonical(a, store, route, structural_key, 0),
        canonical(b, store, route, structural_key, 0),
        no_collisions(a, b, store),
        replaced(a, b, store, route, 0, x, at),
    ensures
        !has_node(b, store, 0, x.structural_hash@),
{
    if has_node(b, store, 0, x.structural_hash@) {
        let (y, m) = choose|y: HamtNode<K, V>, m: nat| #[trigger]
            occurs(b, store, 0, y, m) && y.structural_hash@ == x.structural_hash@;
        hash_decides_depth(a, b, store, route, structural_key, x, at, y, m);
        assert(no_collisions(b, a, store)) by {
            assert forall|p: HamtNode<K, V>, q: HamtNode<K, V>, i: nat, j: nat|
                #![trigger occurs(b, store, 0, p, i), occurs(a, store, 0, q, j)]
                occurs(b, store, 0, p, i) && occurs(a, store, 0, q, j) && p.structural_hash@
                    == q.structural_hash@ implies same_contents(p, q) by {
                assert(same_contents(q, p));
            }
        }
        hash_decides_depth(b, a, store, route, structural_key, y, m, x, at);
        occurs_canonical(a, store, route, structural_key, 0, x, at);
        occurs_canonical(b, store, route, structural_key, 0, y, m);
        if at > 0 {
            let (p, q) = dense_holds_two(x, store, route, structural_key, at);
            hash_decides_entries(a, b, store, route, structural_key, x, at, y, m, p.0, p.1);
            stands_on_path(b, store, route, structural_key, 0, y, m, p.0, p.1);
            assert(holds(x, store, p.0, p.1, at));
        }
    }
}

/// The difference of two tries' node hashes is safe to count references by: a
/// hash is superseded exactly where the first trie has a node with it and the
/// second has none, and new exactly the other way round. So collecting what is
/// superseded takes nothing from the second trie, and counting what is new
/// misses nothing of it.
pub proof fn hash_diff_is_exact<K: HamtCodec, V: HamtCodec>(
    a: HamtNode<K, V>,
    b: HamtNode<K, V>,
    store: spec_fn(StructuralHash) -> HamtNode<K, V>,
    route: spec_fn(Seq<u8>) -> Seq<u8>,
    structural_key: Seq<u8>,
    hash: Seq<u8>,
)
    requires
        canonical(a, store, route, structural_key, 0),
        canonical(b, store, route, structural_key, 0),
        no_collisions(a, b, store),
        a.structural_hash@ != b.structural_hash@,
    ensures
        ({
            let (superseded, new) = hash_diff_upto(a, b, store, 52, 32);
            let in_a = hash_views(hash_list(a, store, 52)).contains(hash);
            let in_b = hash_views(hash_list(b, store, 52)).contains(hash);
            &&& hash_views(superseded).contains(hash) <==> in_a && !in_b
            &&& hash_views(new).contains(hash) <==> in_b && !in_a
        }),
{
    assert(no_collisions(b, a, store)) by {
        assert forall|p: HamtNode<K, V>, q: HamtNode<K, V>, i: nat, j: nat|
            #![trigger occurs(b, store, 0, p, i), occurs(a, store, 0, q, j)]
            occurs(b, store, 0, p, i) && occurs(a, store, 0, q, j) && p.structural_hash@
                == q.structural_hash@ implies same_contents(p, q) by {
            assert(same_contents(q, p));
        }
    }
    superseded_side(a, b, store, route, structural_key, hash);
    superseded_side(b, a, store, route, structural_key, hash);
    hash_diff_symmetric(a, b, store, 52, 32);
}

/// Of two canonical tries, the difference of their node hashes lists exactly the
/// hashes that one has and the other has not: none where the roots' hashes agree.
pub proof fn node_delta_is_exact<K: HamtCodec, V: HamtCodec>(
    a: HamtNode<K, V>,
    b: HamtNode<K, V>,
    store: spec_fn(StructuralHash) -> HamtNode<K, V>,
    route: spec_fn(Seq<u8>) -> Seq<u8>,
    structural_key: Seq<u8>,
    delta: NodeHashDelta,
    hash: Seq<u8>,
)
    requires
        canonical(a, store, route, structural_key, 0),
        canonical(b, store, route, structural_key, 0),
        no_collisions(a, b, store),
        node_delta_lists(a, b, store, delta),
    ensures
        ({
            let in_a = hash_views(hash_list(a, store, 52)).contains(hash);
            let in_b = hash_views(hash_list(b, store, 52)).contains(hash);
            &&& hash_views(delta.superseded_node_hashes@).contains(hash) <==> in_a && !in_b
            &&& hash_views(delta.new_node_hashes@).contains(hash) <==> in_b && !in_a
        }),
{
    if a.structural_hash@ == b.structural_hash@ {
        assert((52 - 0nat) as nat == 52nat);
        walk_lists_nodes(a, store, route, structural_key, 0, hash);
        walk_lists_nodes(b, store, route, structural_key, 0, hash);
        occurs_itself(a, store, 0);
        occurs_itself(b, store, 0);
        hash_decides_nodes(a, b, store, route, structural_key, a, b, 0, hash);
    } else {
        hash_diff_is_exact(a, b, store, route, structural_key, hash);
    }
}

/// After one insertion or removal, what is superseded is a node of the trie before
/// and of nothing in the trie after, and what is new is every node of the trie
/// after that the trie before has not.
pub proof fn node_delta_after_change<K: HamtCodec, V: HamtCodec>(
    before: HamtNode<K, V>,
    after: HamtNode<K, V>,
    store: spec_fn(StructuralHash) -> HamtNode<K, V>,
    route: spec_fn(Seq<u8>) -> Seq<u8>,
    structural_key: Seq<u8>,
    key: Seq<u8>,
    value: Option<Seq<u8>>,
    delta: NodeHashDelta,
    hash: Seq<u8>,
)
    requires
        canonical(before, store, route, structural_key, 0),
        match value {
            Some(value) => inserted(before, after, store, route, structural_key, 0, key, value),
            None => taken_out(before, after, store, route, structural_key, key),
        },
        no_collisions(before, after, store),
        node_delta_lists(before, after, store, delta),
    ensures
        ({
            let was_there = hash_views(hash_list(before, store, 52)).contains(hash);
            let is_there = hash_views(hash_list(after, store, 52)).contains(hash);
            &&& hash_views(delta.superseded_node_hashes@).contains(hash) <==> was_there && !is_there
            &&& hash_views(delta.new_node_hashes@).contains(hash) <==> is_there && !was_there
        }),
{
    node_delta_is_exact(before, after, store, route, structural_key, delta, hash);
}

/// The superseded side of the difference.
proof fn superseded_side<K: HamtCodec, V: HamtCodec>(
    a: HamtNode<K, V>,
    b: HamtNode<K, V>,
    store: spec_fn(StructuralHash) -> HamtNode<K, V>,
    route: spec_fn(Seq<u8>) -> Seq<u8>,
    structural_key: Seq<u8>,
    hash: Seq<u8>,
)
    requires
        canonical(a, store, route, structural_key, 0),
        canonical(b, store, route, structural_key, 0),
        no_collisions(a, b, store),
        a.structural_hash@ != b.structural_hash@,
    ensures
        hash_views(hash_diff_upto(a, b, store, 52, 32).0).contains(hash) <==> hash_views(
            hash_list(a, store, 52),
        ).contains(hash) && !hash_views(hash_list(b, store, 52)).contains(hash),
{
    assert((52 - 0nat) as nat == 52nat);
    walk_lists_nodes(a, store, route, structural_key, 0, hash);
    walk_lists_nodes(b, store, route, structural_key, 0, hash);
    occurs_itself(a, store, 0);
    occurs_itself(b, store, 0);
    superseded_nodes(a, b, store, route, structural_key, a, b, 0, hash);
    if hash_views(hash_diff_upto(a, b, store, 52, 32).0).contains(hash) {
        let (n, at) = choose|n: HamtNode<K, V>, at: nat| #[trigger]
            replaced(a, b, store, route, 0, n, at) && n.structural_hash@ == hash;
        replaced_is_gone(a, b, store, route, structural_key, n, at);
        assert(occurs(a, store, 0, n, at));
    }
}

/// Canonical tries with the same entries have the same nodes.
proof fn entries_decide_nodes<K: HamtCodec, V: HamtCodec>(
    x: HamtNode<K, V>,
    y: HamtNode<K, V>,
    store: spec_fn(StructuralHash) -> HamtNode<K, V>,
    route: spec_fn(Seq<u8>) -> Seq<u8>,
    structural_key: Seq<u8>,
    depth: nat,
    hash: Seq<u8>,
)
    requires
        canonical(x, store, route, structural_key, depth),
        canonical(y, store, route, structural_key, depth),
        same_entries(x, store, y, store, depth),
        has_node(y, store, depth, hash),
    ensures
        has_node(x, store, depth, hash),
    decreases 52 - depth,
{
    canonical_unique(x, store, y, store, route, structural_key, depth);
    node_listed(x, store, route, structural_key, depth, hash);
    node_listed(y, store, route, structural_key, depth, hash);
    if y.structural_hash@ != hash {
        let i = choose|i: int|
            0 <= i < y.children@.len() && has_node(
                node_at(#[trigger] y.children@[i], store),
                store,
                depth + 1,
                hash,
            );
        let slot = select_slot(y.nodemap, i);
        select_facts(y.nodemap, i);
        assert(y.children@[i] == y.child(slot) && x.children@[i] == x.child(slot));
        canonical_slot(x, store, route, structural_key, depth, slot);
        canonical_slot(y, store, route, structural_key, depth, slot);
        child_agrees(x, store, y, store, route, structural_key, depth, slot);
        entries_decide_nodes(
            node_at(x.child(slot), store),
            node_at(y.child(slot), store),
            store,
            route,
            structural_key,
            depth + 1,
            hash,
        );
        assert(has_node(node_at(x.children@[i], store), store, depth + 1, hash));
    }
}

/// Two tries hold the same entries but for one key.
pub open spec fn same_but_for<K: HamtCodec, V: HamtCodec>(
    a: HamtNode<K, V>,
    b: HamtNode<K, V>,
    store: spec_fn(StructuralHash) -> HamtNode<K, V>,
    depth: nat,
    key: Seq<u8>,
) -> bool {
    forall|k: Seq<u8>, v: Seq<u8>|
        #![trigger holds(a, store, k, v, depth)]
        #![trigger holds(b, store, k, v, depth)]
        k != key ==> (holds(a, store, k, v, depth) <==> holds(b, store, k, v, depth))
}

/// A node on the path of the key has the hash.
pub open spec fn on_spine<K: HamtCodec, V: HamtCodec>(
    node: HamtNode<K, V>,
    store: spec_fn(StructuralHash) -> HamtNode<K, V>,
    path: Seq<u8>,
    depth: nat,
    hash: Seq<u8>,
) -> bool {
    exists|i: int|
        0 <= i < spine(node, store, path, depth).len() && (#[trigger] spine(
            node,
            store,
            path,
            depth,
        )[i]).structural_hash@ == hash
}

proof fn spine_first<K: HamtCodec, V: HamtCodec>(
    node: HamtNode<K, V>,
    store: spec_fn(StructuralHash) -> HamtNode<K, V>,
    path: Seq<u8>,
    depth: nat,
)
    requires
        depth < 52,
    ensures
        on_spine(node, store, path, depth, node.structural_hash@),
{
    assert(spine(node, store, path, depth)[0] == node);
}

proof fn spine_below<K: HamtCodec, V: HamtCodec>(
    node: HamtNode<K, V>,
    store: spec_fn(StructuralHash) -> HamtNode<K, V>,
    path: Seq<u8>,
    depth: nat,
    hash: Seq<u8>,
)
    requires
        depth < 52,
        slot_set(node.nodemap, bucket(path, depth)),
        on_spine(node_at(node.child(bucket(path, depth)), store), store, path, depth + 1, hash),
    ensures
        on_spine(node, store, path, depth, hash),
{
    let rest = spine(
        node_at(node.child(bucket(path, depth)), store),
        store,
        path,
        depth + 1,
    );
    let i = choose|i: int|
        0 <= i < rest.len() && (#[trigger] rest[i]).structural_hash@ == hash;
    assert(spine(node, store, path, depth)[i + 1] == rest[i]);
}

/// A node that holds the key stands on its spine.
proof fn holder_on_spine<K: HamtCodec, V: HamtCodec>(
    node: HamtNode<K, V>,
    store: spec_fn(StructuralHash) -> HamtNode<K, V>,
    route: spec_fn(Seq<u8>) -> Seq<u8>,
    structural_key: Seq<u8>,
    depth: nat,
    x: HamtNode<K, V>,
    at: nat,
    key: Seq<u8>,
    value: Seq<u8>,
)
    requires
        canonical(node, store, route, structural_key, depth),
        occurs(node, store, depth, x, at),
        holds(x, store, key, value, at),
    ensures
        on_spine(node, store, route(key), depth, x.structural_hash@),
    decreases 52 - depth,
{
    if at == depth && x == node {
        spine_first(node, store, route(key), depth);
    } else {
        let s = choose|s: int| #[trigger]
            is_slot(s) && slot_set(node.nodemap, s) && occurs(
                node_at(node.child(s), store),
                store,
                depth + 1,
                x,
                at,
            );
        let child = node_at(node.child(s), store);
        canonical_slot(node, store, route, structural_key, depth, s);
        occurs_holds(child, store, route, structural_key, depth + 1, x, at, key, value);
        holder_on_spine(child, store, route, structural_key, depth + 1, x, at, key, value);
        spine_below(node, store, route(key), depth, x.structural_hash@);
    }
}

/// The nodes of a changed trie are those of the one before it and those on the
/// path of the key.
proof fn covered<K: HamtCodec, V: HamtCodec>(
    a: HamtNode<K, V>,
    b: HamtNode<K, V>,
    store: spec_fn(StructuralHash) -> HamtNode<K, V>,
    route: spec_fn(Seq<u8>) -> Seq<u8>,
    structural_key: Seq<u8>,
    depth: nat,
    key: Seq<u8>,
    hash: Seq<u8>,
)
    requires
        canonical(a, store, route, structural_key, depth),
        canonical(b, store, route, structural_key, depth),
        same_but_for(a, b, store, depth, key),
        has_node(b, store, depth, hash),
    ensures
        has_node(a, store, depth, hash) || on_spine(b, store, route(key), depth, hash),
    decreases 52 - depth,
{
    spine_first(b, store, route(key), depth);
    node_listed(a, store, route, structural_key, depth, hash);
    node_listed(b, store, route, structural_key, depth, hash);
    if b.structural_hash@ != hash {
        let i = choose|i: int|
            0 <= i < b.children@.len() && has_node(
                node_at(#[trigger] b.children@[i], store),
                store,
                depth + 1,
                hash,
            );
        let slot = select_slot(b.nodemap, i);
        select_facts(b.nodemap, i);
        assert(b.children@[i] == b.child(slot));
        let ca = node_at(a.child(slot), store);
        let cb = node_at(b.child(slot), store);
        canonical_slot(a, store, route, structural_key, depth, slot);
        canonical_slot(b, store, route, structural_key, depth, slot);
        disjoint_slots(a.datamap, a.nodemap, slot);
        disjoint_slots(b.datamap, b.nodemap, slot);
        // What the two slots hold.
        assert forall|k: Seq<u8>, v: Seq<u8>| k != key implies (#[trigger] holds(
            cb,
            store,
            k,
            v,
            depth + 1,
        ) <==> bucket(route(k), depth) == slot && holds(a, store, k, v, depth)) by {
            if holds(cb, store, k, v, depth + 1) {
                slot_in_node(b, store, k, v, depth, slot);
            }
            if bucket(route(k), depth) == slot && holds(a, store, k, v, depth) {
                assert(holds(b, store, k, v, depth));
                entry_slot(b, store, route, structural_key, k, v, depth);
            }
        }
        if slot_set(a.nodemap, slot) {
            assert(same_but_for(ca, cb, store, depth + 1, key)) by {
                assert forall|k: Seq<u8>, v: Seq<u8>|
                    #![trigger holds(ca, store, k, v, depth + 1)]
                    #![trigger holds(cb, store, k, v, depth + 1)]
                    k != key implies (holds(ca, store, k, v, depth + 1) <==> holds(
                    cb,
                    store,
                    k,
                    v,
                    depth + 1,
                )) by {
                    if holds(ca, store, k, v, depth + 1) {
                        slot_in_node(a, store, k, v, depth, slot);
                    }
                    if holds(cb, store, k, v, depth + 1) {
                        entry_slot(a, store, route, structural_key, k, v, depth);
                    }
                }
            }
            rank_monotone(a.nodemap, slot + 1, 32);
            let j = rank(a.nodemap, slot) as int;
            assert(node_at(a.children@[j], store) == ca);
            if bucket(route(key), depth) == slot {
                covered(ca, cb, store, route, structural_key, depth + 1, key, hash);
                if on_spine(cb, store, route(key), depth + 1, hash) {
                    spine_below(b, store, route(key), depth, hash);
                }
            } else {
                assert(same_entries(ca, store, cb, store, depth + 1)) by {
                    assert forall|k: Seq<u8>, v: Seq<u8>|
                        #![trigger holds(ca, store, k, v, depth + 1)]
                        #![trigger holds(cb, store, k, v, depth + 1)]
                        holds(ca, store, k, v, depth + 1) <==> holds(
                            cb,
                            store,
                            k,
                            v,
                            depth + 1,
                        ) by {}
                }
                entries_decide_nodes(ca, cb, store, route, structural_key, depth + 1, hash);
            }
            if has_node(ca, store, depth + 1, hash) {
                assert(has_node(node_at(a.children@[j], store), store, depth + 1, hash));
            }
        } else {
            // The slot before held one entry at most, so every node below the
            // slot after holds the key.
            let (x, at) = choose|x: HamtNode<K, V>, at: nat| #[trigger]
                occurs(cb, store, depth + 1, x, at) && x.structural_hash@ == hash;
            occurs_canonical(cb, store, route, structural_key, depth + 1, x, at);
            let (p, q) = dense_holds_two(x, store, route, structural_key, at);
            occurs_holds(cb, store, route, structural_key, depth + 1, x, at, p.0, p.1);
            occurs_holds(cb, store, route, structural_key, depth + 1, x, at, q.0, q.1);
            if p.0 != key && q.0 != key {
                assert(holds(cb, store, p.0, p.1, depth + 1));
                assert(holds(cb, store, q.0, q.1, depth + 1));
                entry_slot(a, store, route, structural_key, p.0, p.1, depth);
                entry_slot(a, store, route, structural_key, q.0, q.1, depth);
            }
            let value = if p.0 == key {
                p.1
            } else {
                q.1
            };
            holder_on_spine(
                cb,
                store,
                route,
                structural_key,
                depth + 1,
                x,
                at,
                key,
                value,
            );
            slot_in_node(b, store, key, value, depth, slot);
            occurs_holds(cb, store, route, structural_key, depth + 1, x, at, key, value);
            spine_below(b, store, route(key), depth, hash);
        }
    }
}

/// A store that persists the nodes on the path of every mutated key has every
/// node of the new root: each one is a node of the root before the mutation, or
/// stands on the path of the key.
pub proof fn created_nodes_suffice<K: HamtCodec, V: HamtCodec>(
    before: HamtNode<K, V>,
    after: HamtNode<K, V>,
    store: spec_fn(StructuralHash) -> HamtNode<K, V>,
    route: spec_fn(Seq<u8>) -> Seq<u8>,
    structural_key: Seq<u8>,
    key: Seq<u8>,
    hash: Seq<u8>,
)
    requires
        canonical(before, store, route, structural_key, 0),
        canonical(after, store, route, structural_key, 0),
        same_but_for(before, after, store, 0, key),
        hash_views(hash_list(after, store, 52)).contains(hash),
    ensures
        hash_views(hash_list(before, store, 52)).contains(hash) || exists|i: int|
            0 <= i < node_records(spine(after, store, route(key), 0)).len() && (
            #[trigger] node_records(spine(after, store, route(key), 0))[i]).0 == hash,
{
    assert((52 - 0nat) as nat == 52nat);
    walk_lists_nodes(before, store, route, structural_key, 0, hash);
    walk_lists_nodes(after, store, route, structural_key, 0, hash);
    covered(before, after, store, route, structural_key, 0, key, hash);
    if on_spine(after, store, route(key), 0, hash) {
        let nodes = spine(after, store, route(key), 0);
        let i = choose|i: int|
            0 <= i < nodes.len() && (#[trigger] nodes[i]).structural_hash@ == hash;
        assert(node_records(nodes)[i].0 == hash);
    }
}

} // verus!
