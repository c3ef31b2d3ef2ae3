//! What holds of the trie as a whole.

use std::sync::Arc;
use vstd::prelude::*;
use super::bitmap::{disjoint_slots, rank, rank_monotone, select_facts, select_slot, slot_set};
use super::codec::HamtCodec;
use super::construct::{pair_listed, trie_of};
use super::delta::{diff_upto, leaf_diff};
use super::hash::StructuralHash;
use super::mutate::{inserted, taken_out};
use super::node::{
    bucket, bucket_range, canonical, canonical_slot, canonical_unique, holds, is_slot, loader,
    lookup, lookup_finds, node_at, node_in_slot, readable, resident, same_entries, slot_in_node,
    HamtNode, NodeRef,
};
use super::read::{path_fails, search_outcome, value_encoding};
use super::slots::same_leaf;
use super::walk::{
    answers, any_outcome, entries_upto, entry_list, find_outcome, first_match, loadable,
};

verus! {

/// A lookup after an insertion finds the new value for the key, and for every
/// other key what it found before.
pub proof fn lookup_after_insert<K: HamtCodec, V: HamtCodec>(
    node: HamtNode<K, V>,
    changed: HamtNode<K, V>,
    store: spec_fn(StructuralHash) -> HamtNode<K, V>,
    route: spec_fn(Seq<u8>) -> Seq<u8>,
    structural_key: Seq<u8>,
    key: Seq<u8>,
    value: Seq<u8>,
    asked: Seq<u8>,
)
    requires
        canonical(node, store, route, structural_key, 0),
        inserted(node, changed, store, route, structural_key, 0, key, value),
    ensures
        lookup(changed, store, route(asked), asked, 0) == if asked == key {
            Some(value)
        } else {
            lookup(node, store, route(asked), asked, 0)
        },
{
    let before = lookup(node, store, route(asked), asked, 0);
    let after = lookup(changed, store, route(asked), asked, 0);
    if asked == key {
        assert(holds(changed, store, key, value, 0));
        lookup_finds(changed, store, route, structural_key, key, value, 0);
    } else {
        if before is Some {
            lookup_finds(node, store, route, structural_key, asked, before->Some_0, 0);
            lookup_finds(changed, store, route, structural_key, asked, before->Some_0, 0);
            assert(holds(changed, store, asked, before->Some_0, 0));
        }
        if after is Some {
            lookup_finds(changed, store, route, structural_key, asked, after->Some_0, 0);
            lookup_finds(node, store, route, structural_key, asked, after->Some_0, 0);
            assert(holds(node, store, asked, after->Some_0, 0));
        }
    }
}

/// A lookup after a removal finds nothing for the key, and for every other key
/// what it found before.
pub proof fn lookup_after_remove<K: HamtCodec, V: HamtCodec>(
    node: HamtNode<K, V>,
    changed: HamtNode<K, V>,
    store: spec_fn(StructuralHash) -> HamtNode<K, V>,
    route: spec_fn(Seq<u8>) -> Seq<u8>,
    structural_key: Seq<u8>,
    key: Seq<u8>,
    asked: Seq<u8>,
)
    requires
        canonical(node, store, route, structural_key, 0),
        taken_out(node, changed, store, route, structural_key, key),
    ensures
        lookup(changed, store, route(asked), asked, 0) == if asked == key {
            None
        } else {
            lookup(node, store, route(asked), asked, 0)
        },
{
    let before = lookup(node, store, route(asked), asked, 0);
    let after = lookup(changed, store, route(asked), asked, 0);
    if before is Some {
        lookup_finds(node, store, route, structural_key, asked, before->Some_0, 0);
        lookup_finds(changed, store, route, structural_key, asked, before->Some_0, 0);
        assert(asked != key ==> holds(changed, store, asked, before->Some_0, 0));
    }
    if after is Some {
        lookup_finds(changed, store, route, structural_key, asked, after->Some_0, 0);
        lookup_finds(node, store, route, structural_key, asked, after->Some_0, 0);
        assert(holds(node, store, asked, after->Some_0, 0) && asked != key);
    }
}

/// The structural hash and the bitmaps after an insertion are what building a trie
/// from the same final entries gives.
pub proof fn insert_matches_build<K: HamtCodec, V: HamtCodec>(
    node: HamtNode<K, V>,
    changed: HamtNode<K, V>,
    store: spec_fn(StructuralHash) -> HamtNode<K, V>,
    route: spec_fn(Seq<u8>) -> Seq<u8>,
    structural_key: Seq<u8>,
    key: Seq<u8>,
    value: Seq<u8>,
    entries: Seq<(K, V)>,
    rebuilt: HamtNode<K, V>,
)
    requires
        inserted(node, changed, store, route, structural_key, 0, key, value),
        trie_of(rebuilt, entries, route, structural_key),
        forall|k: Seq<u8>, v: Seq<u8>| #[trigger]
            pair_listed(entries, k, v) <==> if k == key {
                v == value
            } else {
                holds(node, store, k, v, 0)
            },
    ensures
        changed.structural_hash@ == rebuilt.structural_hash@,
        changed.datamap == rebuilt.datamap,
        changed.nodemap == rebuilt.nodemap,
{
    assert(same_entries(changed, store, rebuilt, store, 0)) by {
        assert forall|k: Seq<u8>, v: Seq<u8>|
            #![trigger holds(changed, store, k, v, 0)]
            #![trigger holds(rebuilt, store, k, v, 0)]
            holds(changed, store, k, v, 0) <==> holds(rebuilt, store, k, v, 0) by {
            assert(holds(rebuilt, store, k, v, 0) <==> pair_listed(entries, k, v));
        }
    }
    assert(canonical(rebuilt, store, route, structural_key, 0));
    canonical_unique(changed, store, rebuilt, store, route, structural_key, 0);
}

/// The structural hash and the bitmaps after a removal are what building a trie
/// from the same final entries gives.
pub proof fn remove_matches_build<K: HamtCodec, V: HamtCodec>(
    node: HamtNode<K, V>,
    changed: HamtNode<K, V>,
    store: spec_fn(StructuralHash) -> HamtNode<K, V>,
    route: spec_fn(Seq<u8>) -> Seq<u8>,
    structural_key: Seq<u8>,
    key: Seq<u8>,
    entries: Seq<(K, V)>,
    rebuilt: HamtNode<K, V>,
)
    requires
        taken_out(node, changed, store, route, structural_key, key),
        trie_of(rebuilt, entries, route, structural_key),
        forall|k: Seq<u8>, v: Seq<u8>| #[trigger]
            pair_listed(entries, k, v) <==> holds(node, store, k, v, 0) && k != key,
    ensures
        changed.structural_hash@ == rebuilt.structural_hash@,
        changed.datamap == rebuilt.datamap,
        changed.nodemap == rebuilt.nodemap,
{
    assert(same_entries(changed, store, rebuilt, store, 0)) by {
        assert forall|k: Seq<u8>, v: Seq<u8>|
            #![trigger holds(changed, store, k, v, 0)]
            #![trigger holds(rebuilt, store, k, v, 0)]
            holds(changed, store, k, v, 0) <==> holds(rebuilt, store, k, v, 0) by {
            assert(holds(rebuilt, store, k, v, 0) <==> pair_listed(entries, k, v));
        }
    }
    assert(canonical(rebuilt, store, route, structural_key, 0));
    canonical_unique(changed, store, rebuilt, store, route, structural_key, 0);
}

/// Removing a key that was just inserted gives back the structural hash and the
/// bitmaps.
pub proof fn remove_undoes_insert<K: HamtCodec, V: HamtCodec>(
    node: HamtNode<K, V>,
    with_key: HamtNode<K, V>,
    without_key: HamtNode<K, V>,
    store: spec_fn(StructuralHash) -> HamtNode<K, V>,
    route: spec_fn(Seq<u8>) -> Seq<u8>,
    structural_key: Seq<u8>,
    key: Seq<u8>,
    value: Seq<u8>,
)
    requires
        canonical(node, store, route, structural_key, 0),
        forall|v: Seq<u8>| !holds(node, store, key, v, 0),
        inserted(node, with_key, store, route, structural_key, 0, key, value),
        taken_out(with_key, without_key, store, route, structural_key, key),
    ensures
        without_key.structural_hash@ == node.structural_hash@,
        without_key.datamap == node.datamap,
        without_key.nodemap == node.nodemap,
{
    assert(same_entries(without_key, store, node, store, 0)) by {
        assert forall|k: Seq<u8>, v: Seq<u8>|
            #![trigger holds(without_key, store, k, v, 0)]
            #![trigger holds(node, store, k, v, 0)]
            holds(without_key, store, k, v, 0) <==> holds(node, store, k, v, 0) by {
            assert(holds(without_key, store, k, v, 0) <==> holds(with_key, store, k, v, 0) && k
                != key);
        }
    }
    canonical_unique(without_key, store, node, store, route, structural_key, 0);
}

/// The order in which two different keys are inserted does not matter.
pub proof fn inserts_commute<K: HamtCodec, V: HamtCodec>(
    node: HamtNode<K, V>,
    first: HamtNode<K, V>,
    both: HamtNode<K, V>,
    other_first: HamtNode<K, V>,
    other_both: HamtNode<K, V>,
    store: spec_fn(StructuralHash) -> HamtNode<K, V>,
    route: spec_fn(Seq<u8>) -> Seq<u8>,
    structural_key: Seq<u8>,
    a: (Seq<u8>, Seq<u8>),
    b: (Seq<u8>, Seq<u8>),
)
    requires
        a.0 != b.0,
        inserted(node, first, store, route, structural_key, 0, a.0, a.1),
        inserted(first, both, store, route, structural_key, 0, b.0, b.1),
        inserted(node, other_first, store, route, structural_key, 0, b.0, b.1),
        inserted(other_first, other_both, store, route, structural_key, 0, a.0, a.1),
    ensures
        both.structural_hash@ == other_both.structural_hash@,
        both.datamap == other_both.datamap,
        both.nodemap == other_both.nodemap,
{
    assert(same_entries(both, store, other_both, store, 0)) by {
        assert forall|k: Seq<u8>, v: Seq<u8>|
            #![trigger holds(both, store, k, v, 0)]
            #![trigger holds(other_both, store, k, v, 0)]
            holds(both, store, k, v, 0) <==> holds(other_both, store, k, v, 0) by {
            assert(holds(first, store, k, v, 0) <==> if k == a.0 {
                v == a.1
            } else {
                holds(node, store, k, v, 0)
            });
            assert(holds(other_first, store, k, v, 0) <==> if k == b.0 {
                v == b.1
            } else {
                holds(node, store, k, v, 0)
            });
        }
    }
    canonical_unique(both, store, other_both, store, route, structural_key, 0);
}

/// Nothing is left to be loaded, down to some level.
pub open spec fn all_resolved<K, V>(node: HamtNode<K, V>, levels: nat) -> bool
    decreases levels,
{
    levels > 0 ==> forall|i: int|
        0 <= i < node.children@.len() ==> ((#[trigger] node.children@[i]) matches NodeRef::Resolved(
            child,
        ) && all_resolved(*child, (levels - 1) as nat))
}

/// What a lookup in memory finds, a lookup with any store finds, and in a trie
/// with nothing left to be loaded it finds all there is.
pub proof fn resident_finds<K: HamtCodec, V: HamtCodec>(
    node: HamtNode<K, V>,
    store: spec_fn(StructuralHash) -> HamtNode<K, V>,
    route: spec_fn(Seq<u8>) -> Seq<u8>,
    structural_key: Seq<u8>,
    path: Seq<u8>,
    key: Seq<u8>,
    depth: nat,
)
    requires
        depth <= 52,
        depth < 52 ==> canonical(node, store, route, structural_key, depth),
    ensures
        resident(node, path, key, depth) matches Some(value) ==> lookup(
            node,
            store,
            path,
            key,
            depth,
        ) == Some(value.encoding()),
        all_resolved(node, (52 - depth) as nat) && resident(node, path, key, depth) is None
            ==> lookup(node, store, path, key, depth) is None,
    decreases 52 - depth,
{
    if depth < 52 {
        let slot = bucket(path, depth);
        bucket_range(path, depth);
        canonical_slot(node, store, route, structural_key, depth, slot);
        if slot_set(node.nodemap, slot) {
            disjoint_slots(node.datamap, node.nodemap, slot);
            rank_monotone(node.nodemap, slot + 1, 32);
            let at = rank(node.nodemap, slot) as int;
            assert(node.children@[at] == node.child(slot));
            let child = node_at(node.child(slot), store);
            resident_finds(child, store, route, structural_key, path, key, depth + 1);
        }
    }
}

/// One trie is another, loaded whole, with some of its nodes left in the store.
pub open spec fn unloads<K: HamtCodec, V: HamtCodec>(
    whole: HamtNode<K, V>,
    partial: HamtNode<K, V>,
    store: spec_fn(StructuralHash) -> HamtNode<K, V>,
    levels: nat,
) -> bool
    decreases levels,
{
    levels > 0 ==> {
        &&& whole.shape()
        &&& partial.datamap == whole.datamap
        &&& partial.nodemap == whole.nodemap
        &&& forall|i: int|
            0 <= i < whole.leaves@.len() ==> same_leaf(
                #[trigger] whole.leaves@[i],
                partial.leaves@[i],
            )
        &&& forall|i: int|
            0 <= i < whole.children@.len() ==> ((
            #[trigger] whole.children@[i]) matches NodeRef::Resolved(child) && unloads(
                *child,
                node_at(partial.children@[i], store),
                store,
                (levels - 1) as nat,
            ))
    }
}

/// A lookup that loads what it needs finds what a lookup in memory finds in the
/// whole trie.
pub proof fn lookup_in_part<K: HamtCodec, V: HamtCodec>(
    whole: HamtNode<K, V>,
    partial: HamtNode<K, V>,
    store: spec_fn(StructuralHash) -> HamtNode<K, V>,
    path: Seq<u8>,
    key: Seq<u8>,
    depth: nat,
)
    requires
        depth <= 52,
        unloads(whole, partial, store, (52 - depth) as nat),
    ensures
        lookup(partial, store, path, key, depth) == value_encoding(
            resident(whole, path, key, depth),
        ),
    decreases 52 - depth,
{
    if depth < 52 {
        let slot = bucket(path, depth);
        bucket_range(path, depth);
        if slot_set(whole.datamap, slot) {
            rank_monotone(whole.datamap, slot, 32);
            let at = rank(whole.datamap, slot) as int;
            assert(same_leaf(whole.leaves@[at], partial.leaves@[at]));
        } else if slot_set(whole.nodemap, slot) {
            rank_monotone(whole.nodemap, slot, 32);
            let at = rank(whole.nodemap, slot) as int;
            assert(whole.children@[at] is Resolved);
            lookup_in_part(
                node_at(whole.children@[at], store),
                node_at(partial.children@[at], store),
                store,
                path,
                key,
                depth + 1,
            );
        }
    }
}

/// A search in a trie with nodes left to be loaded gives what looking the key up
/// in the whole trie gives, unless loading a node on the key's path fails.
pub proof fn search_in_part<K: HamtCodec, V: HamtCodec, E, F>(
    resolver: F,
    whole: HamtNode<K, V>,
    partial: HamtNode<K, V>,
    store: spec_fn(StructuralHash) -> HamtNode<K, V>,
    path: Seq<u8>,
    key: Seq<u8>,
    found: Result<Option<V>, E>,
) where F: FnMut(&StructuralHash) -> Result<Arc<HamtNode<K, V>>, E>
    requires
        unloads(whole, partial, store, 52),
        readable(loader::<K, V, E, F>(resolver), store, partial, 52),
        search_outcome::<K, V, E, F>(resolver, partial, path, key, found),
    ensures
        match found {
            Ok(value) => value_encoding(value) == value_encoding(resident(whole, path, key, 0)),
            Err(error) => path_fails::<K, V, E, F>(resolver, partial, path, 0, error),
        },
{
    assert((52 - 0nat) as nat == 52nat);
    lookup_in_part(whole, partial, store, path, key, 0);
}

/// The predicate always answers the same for an entry.
pub open spec fn settled<K, V, E, P>(predicate: P) -> bool where
    P: FnMut(&K, &V) -> Result<bool, E>,
 {
    forall|entry: (K, V), x: Result<bool, E>, y: Result<bool, E>|
        #[trigger] answers::<K, V, bool, E, P>(predicate, entry, x) && #[trigger] answers::<
            K,
            V,
            bool,
            E,
            P,
        >(predicate, entry, y) ==> x == y
}

/// Where nothing fails, testing for an accepted entry says yes exactly where
/// looking for one finds one.
pub proof fn any_agrees_with_find<K: HamtCodec, V: HamtCodec, F, E, P>(
    resolver: F,
    predicate: P,
    node: HamtNode<K, V>,
    store: spec_fn(StructuralHash) -> HamtNode<K, V>,
    levels: nat,
    any: bool,
    found: Option<(K, V)>,
) where
    F: FnMut(&StructuralHash) -> Result<Arc<HamtNode<K, V>>, E>,
    P: FnMut(&K, &V) -> Result<bool, E>,

    requires
        settled::<K, V, E, P>(predicate),
        loadable(loader::<K, V, E, F>(resolver), store, node, levels),
        any_outcome::<K, V, F, E, P>(resolver, predicate, node, levels, Ok(any)),
        find_outcome::<K, V, F, E, P>(resolver, predicate, node, levels, Ok(found)),
    ensures
        any <==> found is Some,
{
    let entries = entry_list(node, store, levels);
    if any != (found is Some) {
        let at = choose|at: int| #[trigger]
            first_match::<K, V, F, E, P>(resolver, predicate, node, store, levels, at);
        assert(first_match::<K, V, F, E, P>(resolver, predicate, node, store, levels, at));
        let no: Result<bool, E> = Ok(false);
        let yes: Result<bool, E> = Ok(true);
        assert(answers::<K, V, bool, E, P>(predicate, entries[at], no));
        assert(answers::<K, V, bool, E, P>(predicate, entries[at], yes));
    }
}

/// The list has an entry with the encodings.
pub open spec fn in_entries<K: HamtCodec, V: HamtCodec>(
    entries: Seq<(K, V)>,
    key: Seq<u8>,
    value: Seq<u8>,
) -> bool {
    exists|i: int|
        0 <= i < entries.len() && (#[trigger] entries[i]).0.encoding() == key
            && entries[i].1.encoding() == value
}

/// An entry of a list put together is an entry of one of its parts.
pub proof fn in_entries_concat<K: HamtCodec, V: HamtCodec>(
    a: Seq<(K, V)>,
    b: Seq<(K, V)>,
    key: Seq<u8>,
    value: Seq<u8>,
)
    ensures
        in_entries(a + b, key, value) <==> in_entries(a, key, value) || in_entries(b, key, value),
{
    let all = a + b;
    if in_entries(all, key, value) {
        let i = choose|i: int|
            0 <= i < all.len() && (#[trigger] all[i]).0.encoding() == key && all[i].1.encoding()
                == value;
        if i < a.len() {
            assert(a[i] == all[i]);
        } else {
            assert(b[i - a.len()] == all[i]);
        }
    }
    if in_entries(a, key, value) {
        let i = choose|i: int|
            0 <= i < a.len() && (#[trigger] a[i]).0.encoding() == key && a[i].1.encoding()
                == value;
        assert(all[i] == a[i]);
    }
    if in_entries(b, key, value) {
        let i = choose|i: int|
            0 <= i < b.len() && (#[trigger] b[i]).0.encoding() == key && b[i].1.encoding()
                == value;
        assert(all[a.len() + i] == b[i]);
    }
}

/// The list of a child has the entry.
spec fn in_child<K: HamtCodec, V: HamtCodec>(
    node: HamtNode<K, V>,
    store: spec_fn(StructuralHash) -> HamtNode<K, V>,
    levels: nat,
    i: int,
    key: Seq<u8>,
    value: Seq<u8>,
) -> bool {
    in_entries(
        entry_list(node_at(node.children@[i], store), store, (levels - 1) as nat),
        key,
        value,
    )
}

proof fn in_entries_upto<K: HamtCodec, V: HamtCodec>(
    node: HamtNode<K, V>,
    store: spec_fn(StructuralHash) -> HamtNode<K, V>,
    levels: nat,
    n: nat,
    key: Seq<u8>,
    value: Seq<u8>,
)
    requires
        levels > 0,
    ensures
        in_entries(entries_upto(node, store, levels, n), key, value) <==> {
            ||| in_entries(node.leaves@, key, value)
            ||| exists|i: int| 0 <= i < n && in_child(node, store, levels, i, key, value)
        },
    decreases n,
{
    if n > 0 {
        let m = (n - 1) as nat;
        in_entries_upto(node, store, levels, m, key, value);
        let child = node_at(node.children@[n - 1], store);
        in_entries_concat(
            entries_upto(node, store, levels, m),
            entry_list(child, store, (levels - 1) as nat),
            key,
            value,
        );
        assert(in_child(node, store, levels, n - 1, key, value) <==> in_entries(
            entry_list(child, store, (levels - 1) as nat),
            key,
            value,
        ));
    }
}

/// A walk over a canonical trie comes to exactly the entries that it holds.
pub proof fn walk_lists_entries<K: HamtCodec, V: HamtCodec>(
    node: HamtNode<K, V>,
    store: spec_fn(StructuralHash) -> HamtNode<K, V>,
    route: spec_fn(Seq<u8>) -> Seq<u8>,
    structural_key: Seq<u8>,
    depth: nat,
    key: Seq<u8>,
    value: Seq<u8>,
)
    requires
        canonical(node, store, route, structural_key, depth),
    ensures
        in_entries(entry_list(node, store, (52 - depth) as nat), key, value) <==> holds(
            node,
            store,
            key,
            value,
            depth,
        ),
    decreases 52 - depth,
{
    let levels = (52 - depth) as nat;
    let below = (levels - 1) as nat;
    in_entries_upto(node, store, levels, node.children@.len(), key, value);
    assert forall|i: int| 0 <= i < node.children@.len() implies #[trigger] in_child(
        node,
        store,
        levels,
        i,
        key,
        value,
    ) == holds(node_at(node.children@[i], store), store, key, value, depth + 1) by {
        let slot = select_slot(node.nodemap, i);
        select_facts(node.nodemap, i);
        canonical_slot(node, store, route, structural_key, depth, slot);
        assert((52 - (depth + 1)) as nat == below);
        walk_lists_entries(
            node_at(node.children@[i], store),
            store,
            route,
            structural_key,
            depth + 1,
            key,
            value,
        );
    }
    if in_entries(entry_list(node, store, levels), key, value) {
        if in_entries(node.leaves@, key, value) {
            let i = choose|i: int|
                0 <= i < node.leaves@.len() && (#[trigger] node.leaves@[i]).0.encoding() == key
                    && node.leaves@[i].1.encoding() == value;
            let slot = select_slot(node.datamap, i);
            select_facts(node.datamap, i);
            slot_in_node(node, store, key, value, depth, slot);
        } else {
            let i = choose|i: int|
                0 <= i < node.children@.len() && in_child(node, store, levels, i, key, value);
            let slot = select_slot(node.nodemap, i);
            select_facts(node.nodemap, i);
            disjoint_slots(node.datamap, node.nodemap, slot);
            slot_in_node(node, store, key, value, depth, slot);
        }
    }
    if holds(node, store, key, value, depth) {
        let slot = node_in_slot(node, store, key, value, depth);
        if slot_set(node.datamap, slot) {
            rank_monotone(node.datamap, slot + 1, 32);
            let i = rank(node.datamap, slot) as int;
            assert(node.leaves@[i].0.encoding() == key);
        } else {
            rank_monotone(node.nodemap, slot + 1, 32);
            let i = rank(node.nodemap, slot) as int;
            assert(node.children@[i] == node.child(slot));
            assert(in_child(node, store, levels, i, key, value));
        }
    }
}

/// The comparison of two nodes is that of the nodes exchanged, with the lists
/// exchanged.
pub proof fn diff_symmetric<K: HamtCodec, V: HamtCodec>(
    a: HamtNode<K, V>,
    b: HamtNode<K, V>,
    store: spec_fn(StructuralHash) -> HamtNode<K, V>,
    levels: nat,
    n: nat,
)
    ensures
        diff_upto(a, b, store, levels, n).0 == diff_upto(b, a, store, levels, n).1,
        diff_upto(a, b, store, levels, n).1 == diff_upto(b, a, store, levels, n).0,
    decreases levels, n,
{
    if levels > 0 {
        if n == 0 {
            leaf_diff_symmetric(a, b, 32);
        } else {
            diff_symmetric(a, b, store, levels, (n - 1) as nat);
            let slot = n - 1;
            diff_symmetric(
                node_at(a.child(slot), store),
                node_at(b.child(slot), store),
                store,
                (levels - 1) as nat,
                32,
            );
        }
    }
}

proof fn leaf_diff_symmetric<K: HamtCodec, V: HamtCodec>(
    a: HamtNode<K, V>,
    b: HamtNode<K, V>,
    n: nat,
)
    ensures
        leaf_diff(a, b, n).0 == leaf_diff(b, a, n).1,
        leaf_diff(a, b, n).1 == leaf_diff(b, a, n).0,
    decreases n,
{
    if n > 0 {
        leaf_diff_symmetric(a, b, (n - 1) as nat);
    }
}

/// Nodes in the same place of two tries that have the same structural hash hold
/// the same entries: no digest is shared by different subtrees there.
pub open spec fn faithful<K: HamtCodec, V: HamtCodec>(
    a: HamtNode<K, V>,
    b: HamtNode<K, V>,
    store: spec_fn(StructuralHash) -> HamtNode<K, V>,
    depth: nat,
) -> bool
    decreases 52 - depth,
{
    depth < 52 ==> {
        &&& a.structural_hash@ == b.structural_hash@ ==> same_entries(a, store, b, store, depth)
        &&& forall|slot: int| #[trigger]
            is_slot(slot) && slot_set(a.nodemap, slot) && slot_set(b.nodemap, slot) ==> faithful(
                node_at(a.child(slot), store),
                node_at(b.child(slot), store),
                store,
                depth + 1,
            )
    }
}

/// What is faithful is so whichever trie comes first.
pub proof fn faithful_both_ways<K: HamtCodec, V: HamtCodec>(
    a: HamtNode<K, V>,
    b: HamtNode<K, V>,
    store: spec_fn(StructuralHash) -> HamtNode<K, V>,
    depth: nat,
)
    requires
        faithful(a, b, store, depth),
    ensures
        faithful(b, a, store, depth),
    decreases 52 - depth,
{
    if depth < 52 {
        assert forall|slot: int| #[trigger]
            is_slot(slot) && slot_set(b.nodemap, slot) && slot_set(a.nodemap, slot) implies faithful(
            node_at(b.child(slot), store),
            node_at(a.child(slot), store),
            store,
            depth + 1,
        ) by {
            faithful_both_ways(
                node_at(a.child(slot), store),
                node_at(b.child(slot), store),
                store,
                depth + 1,
            );
        }
    }
}

/// Canonical tries are compared as equal exactly where they hold the same
/// entries, unless two subtrees share a digest.
pub proof fn equal_hashes_equal_entries<K: HamtCodec, V: HamtCodec>(
    a: HamtNode<K, V>,
    b: HamtNode<K, V>,
    store: spec_fn(StructuralHash) -> HamtNode<K, V>,
    route: spec_fn(Seq<u8>) -> Seq<u8>,
    structural_key: Seq<u8>,
)
    requires
        canonical(a, store, route, structural_key, 0),
        canonical(b, store, route, structural_key, 0),
        faithful(a, b, store, 0),
    ensures
        a.structural_hash@ == b.structural_hash@ <==> same_entries(a, store, b, store, 0),
{
    if same_entries(a, store, b, store, 0) {
        canonical_unique(a, store, b, store, route, structural_key, 0);
    }
}

} // verus!
