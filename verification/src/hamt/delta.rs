//! Subtree differencing for set isolation.

use std::sync::Arc;
use vstd::prelude::*;
use super::bitmap::{disjoint_slots, has_slot, map_index, rank, rank_monotone, slot_set};
use super::codec::HamtCodec;
use super::hash::{same_hash, StructuralHash};
use super::node::{
    is_slot, leaves_encodable, loader, node_at, readable, ref_hash, resolver_total, HamtNode,
    NodeRef, HAMT_MAX_DEPTH,
};
use super::read::{clone_keeps, leaf_in_range, readable_child};
use super::slots::same_leaf;
use super::walk::{
    all_loaded, child_loads, entries_upto, entry_list, gets_too_deep, load_fails, load_fails_at,
    load_fails_below, loadable, loaded_upto, loads_next, resolve_node, stops, too_deep,
    too_deep_below, HamtTraversalError, Stop,
};
use crate::state::LtHash;

verus! {

/// Entries of one side of a difference.
pub type Delta<K, V> = Vec<(K, V)>;

/// Added and removed entries, or the error of the traversal.
pub type DeltaResult<K, V, E> = Result<(Delta<K, V>, Delta<K, V>), E>;

/// The second entry is a copy of the first.
pub open spec fn is_copy<K: HamtCodec, V: HamtCodec>(a: (K, V), b: (K, V)) -> bool {
    &&& same_leaf(a, b)
    &&& a.0.encodable() == b.0.encodable()
    &&& a.1.encodable() == b.1.encodable()
}

/// A list continued by copies of entries.
pub open spec fn appended<K: HamtCodec, V: HamtCodec>(
    before: Seq<(K, V)>,
    after: Seq<(K, V)>,
    entries: Seq<(K, V)>,
) -> bool {
    &&& after.len() == before.len() + entries.len()
    &&& forall|i: int| 0 <= i < before.len() ==> #[trigger] after[i] == before[i]
    &&& forall|i: int|
        0 <= i < entries.len() ==> is_copy(#[trigger] entries[i], after[before.len() + i])
}

proof fn appended_more<K: HamtCodec, V: HamtCodec>(
    before: Seq<(K, V)>,
    middle: Seq<(K, V)>,
    after: Seq<(K, V)>,
    first: Seq<(K, V)>,
    second: Seq<(K, V)>,
)
    requires
        appended(before, middle, first),
        appended(middle, after, second),
    ensures
        appended(before, after, first + second),
{
    let all = first + second;
    assert forall|i: int| 0 <= i < before.len() implies #[trigger] after[i] == before[i] by {
        assert(after[i] == middle[i]);
        assert(middle[i] == before[i]);
    }
    assert forall|i: int| 0 <= i < all.len() implies is_copy(
        #[trigger] all[i],
        after[before.len() + i],
    ) by {
        if i < first.len() {
            assert(after[before.len() + i] == middle[before.len() + i]);
            assert(is_copy(first[i], middle[before.len() + i]));
        } else {
            assert(is_copy(
                second[i - first.len()],
                after[middle.len() + (i - first.len())],
            ));
        }
    }
}

/// Appends a copy of an entry.
fn push_copy<K: HamtCodec + Clone, V: HamtCodec + Clone>(
    collection: &mut Vec<(K, V)>,
    entry: &(K, V),
)
    requires
        clone_keeps::<K>(),
        clone_keeps::<V>(),
    ensures
        appended(old(collection)@, final(collection)@, seq![*entry]),
{
    let key: K = entry.0.clone();
    let value: V = entry.1.clone();
    proof {
        assert(cloned(entry.0, key) && cloned(entry.1, value));
    }
    collection.push((key, value));
}

/// What collecting the leaves of a subtree does.
pub open spec fn collect_outcome<K: HamtCodec, V: HamtCodec, F, E>(
    resolver: F,
    node: HamtNode<K, V>,
    levels: nat,
    before: Seq<(K, V)>,
    after: Seq<(K, V)>,
    result: Result<(), HamtTraversalError<E>>,
) -> bool where F: FnMut(&StructuralHash) -> Result<Arc<HamtNode<K, V>>, E> {
    forall|store: spec_fn(StructuralHash) -> HamtNode<K, V>| #[trigger]
        loadable(loader::<K, V, E, F>(resolver), store, node, levels) ==> match result {
            Ok(_) => {
                &&& appended(before, after, entry_list(node, store, levels))
                &&& all_loaded(loader::<K, V, E, F>(resolver), store, node, levels)
                &&& !too_deep(node, store, levels)
            },
            Err(HamtTraversalError::Resolve(error)) => load_fails::<K, V, E, F>(
                resolver,
                node,
                store,
                levels,
                error,
            ),
            Err(HamtTraversalError::MaxDepthExceeded { depth }) => depth == 52 && gets_too_deep(
                loader::<K, V, E, F>(resolver),
                store,
                node,
                levels,
            ),
        }
}

/// Appends copies of every entry of a subtree.
fn collect_all_leaves<K, V, F, E>(
    node: &Arc<HamtNode<K, V>>,
    collection: &mut Vec<(K, V)>,
    resolver: &mut F,
    depth: usize,
) -> (result: Result<(), HamtTraversalError<E>>) where
    K: HamtCodec + Clone,
    V: HamtCodec + Clone,
    F: FnMut(&StructuralHash) -> Result<Arc<HamtNode<K, V>>, E>,

    requires
        depth <= 52,
        resolver_total::<K, V, E, F>(*old(resolver)),
        clone_keeps::<K>(),
        clone_keeps::<V>(),
    ensures
        *final(resolver) == *old(resolver),
        collect_outcome::<K, V, F, E>(
            *old(resolver),
            **node,
            (52 - depth) as nat,
            old(collection)@,
            final(collection)@,
            result,
        ),
    decreases 52 - depth,
{
    let tree: &HamtNode<K, V> = &**node;
    if depth >= HAMT_MAX_DEPTH {
        proof {
            assert forall|store: spec_fn(StructuralHash) -> HamtNode<K, V>| #[trigger]
                loadable(loader::<K, V, E, F>(*resolver), store, *tree, 0) implies gets_too_deep(
                loader::<K, V, E, F>(*resolver),
                store,
                *tree,
                0,
            ) by {
                assert(stops(
                    loader::<K, V, E, F>(*resolver),
                    store,
                    *tree,
                    0,
                    Stop::Depth,
                    0,
                ));
            }
        }
        return Err(HamtTraversalError::MaxDepthExceeded { depth });
    }
    let ghost levels = (52 - depth) as nat;
    let ghost load = loader::<K, V, E, F>(*resolver);
    let ghost before = collection@;
    let mut index: usize = 0;
    while index < tree.leaves.len()
        invariant
            index <= tree.leaves.len(),
            *resolver == *old(resolver),
            clone_keeps::<K>(),
            clone_keeps::<V>(),
            appended(before, collection@, tree.leaves@.take(index as int)),
        decreases tree.leaves.len() - index,
    {
        let ghost middle = collection@;
        push_copy(collection, &tree.leaves[index]);
        proof {
            let first = tree.leaves@.take(index as int);
            appended_more(before, middle, collection@, first, seq![tree.leaves@[index as int]]);
            assert(first + seq![tree.leaves@[index as int]] =~= tree.leaves@.take(index + 1));
        }
        index = index + 1;
    }
    proof {
        assert(tree.leaves@.take(index as int) =~= tree.leaves@);
    }
    let mut place: usize = 0;
    while place < tree.children.len()
        invariant
            place <= tree.children.len(),
            depth < 52,
            levels == 52 - depth,
            *tree == **node,
            before == old(collection)@,
            *resolver == *old(resolver),
            load == loader::<K, V, E, F>(*resolver),
            resolver_total::<K, V, E, F>(*resolver),
            clone_keeps::<K>(),
            clone_keeps::<V>(),
            forall|store: spec_fn(StructuralHash) -> HamtNode<K, V>| #[trigger]
                loadable(load, store, *tree, levels) ==> {
                    &&& appended(
                        before,
                        collection@,
                        entries_upto(*tree, store, levels, place as nat),
                    )
                    &&& loaded_upto(load, store, *tree, levels, place as nat)
                    &&& forall|i: int|
                        0 <= i < place ==> !too_deep(
                            node_at(#[trigger] tree.children@[i], store),
                            store,
                            (levels - 1) as nat,
                        )
                },
        decreases tree.children.len() - place,
    {
        let child_ref: &NodeRef<K, V> = &tree.children[place];
        let child: Arc<HamtNode<K, V>> = match resolve_node(child_ref, resolver) {
            Ok(node) => node,
            Err(error) => {
                proof {
                    assert forall|store: spec_fn(StructuralHash) -> HamtNode<K, V>| #[trigger]
                        loadable(load, store, *tree, levels) implies load_fails::<K, V, E, F>(
                        *resolver,
                        *tree,
                        store,
                        levels,
                        error,
                    ) by {
                        load_fails_at::<K, V, E, F>(
                            *resolver,
                            *tree,
                            store,
                            levels,
                            place as int,
                            error,
                        );
                    }
                }
                return Err(HamtTraversalError::Resolve(error));
            },
        };
        let ghost middle = collection@;
        let below: Result<(), HamtTraversalError<E>> = collect_all_leaves(
            &child,
            collection,
            resolver,
            depth + 1,
        );
        proof {
            assert forall|store: spec_fn(StructuralHash) -> HamtNode<K, V>| #[trigger]
                loadable(load, store, *tree, levels) implies match below {
                Ok(_) => {
                    &&& appended(
                        before,
                        collection@,
                        entries_upto(*tree, store, levels, (place + 1) as nat),
                    )
                    &&& loaded_upto(load, store, *tree, levels, (place + 1) as nat)
                    &&& !too_deep(
                        node_at(tree.children@[place as int], store),
                        store,
                        (levels - 1) as nat,
                    )
                },
                Err(HamtTraversalError::Resolve(error)) => load_fails::<K, V, E, F>(
                    *resolver,
                    *tree,
                    store,
                    levels,
                    error,
                ),
                Err(HamtTraversalError::MaxDepthExceeded { depth: at }) => at == 52
                    && gets_too_deep(load, store, *tree, levels),
            } by {
                assert(tree.children@[place as int] == *child_ref);
                assert(*child == node_at(tree.children@[place as int], store));
                assert(loadable(load, store, *child, (52 - (depth + 1)) as nat));
                if below is Err && below->Err_0 is MaxDepthExceeded {
                    too_deep_below(load, store, *tree, levels, place as int);
                }
                if below is Err && below->Err_0 is Resolve {
                    load_fails_below::<K, V, E, F>(
                        *resolver,
                        *tree,
                        store,
                        levels,
                        place as int,
                        below->Err_0->Resolve_0,
                    );
                }
                if below is Ok {
                    appended_more(
                        before,
                        middle,
                        collection@,
                        entries_upto(*tree, store, levels, place as nat),
                        entry_list(*child, store, (levels - 1) as nat),
                    );
                }
            }
        }
        match below {
            Ok(_) => {},
            Err(error) => {
                return Err(error);
            },
        }
        place = place + 1;
    }
    Ok(())
}

/// The leaf of a slot, if there is one.
pub open spec fn slot_leaf<K: HamtCodec, V: HamtCodec>(node: HamtNode<K, V>, slot: int) -> Option<
    (K, V),
> {
    if slot_set(node.datamap, slot) {
        Some(node.leaf(slot))
    } else {
        None
    }
}

/// The list has a copy of the entry.
pub open spec fn lists_entry<K: HamtCodec, V: HamtCodec>(
    list: Seq<(K, V)>,
    entry: (K, V),
) -> bool {
    exists|i: int| 0 <= i < list.len() && same_leaf(#[trigger] list[i], entry)
}

/// The list without its first copy of the entry.
pub open spec fn without_entry<K: HamtCodec, V: HamtCodec>(
    list: Seq<(K, V)>,
    entry: (K, V),
) -> Seq<(K, V)>
    decreases list.len(),
{
    if list.len() == 0 {
        list
    } else if same_leaf(list.last(), entry) && !lists_entry(list.drop_last(), entry) {
        list.drop_last()
    } else {
        without_entry(list.drop_last(), entry).push(list.last())
    }
}

/// How the entries of a subtree differ from the leaf that stands in its place in
/// the other trie: the entries that are not the leaf, and the leaf where it is
/// not one of the entries.
pub open spec fn beside<K: HamtCodec, V: HamtCodec>(
    entries: Seq<(K, V)>,
    leaf: Option<(K, V)>,
) -> (Seq<(K, V)>, Seq<(K, V)>) {
    match leaf {
        Some(leaf) => (
            without_entry(entries, leaf),
            if lists_entry(entries, leaf) {
                Seq::empty()
            } else {
                seq![leaf]
            },
        ),
        None => (entries, Seq::empty()),
    }
}

/// The removed and the added leaf entries of the first slots of two nodes. A
/// leaf in the place of a child is left to the comparison of the child.
pub open spec fn leaf_diff<K: HamtCodec, V: HamtCodec>(
    a: HamtNode<K, V>,
    b: HamtNode<K, V>,
    n: nat,
) -> (Seq<(K, V)>, Seq<(K, V)>)
    decreases n,
{
    if n == 0 {
        (Seq::empty(), Seq::empty())
    } else {
        let (removed, added) = leaf_diff(a, b, (n - 1) as nat);
        let slot = n - 1;
        let in_a = slot_set(a.datamap, slot);
        let in_b = slot_set(b.datamap, slot);
        if in_a && in_b && same_leaf(a.leaf(slot), b.leaf(slot)) {
            (removed, added)
        } else {
            (
                if in_a && !slot_set(b.nodemap, slot) {
                    removed + seq![a.leaf(slot)]
                } else {
                    removed
                },
                if in_b && !slot_set(a.nodemap, slot) {
                    added + seq![b.leaf(slot)]
                } else {
                    added
                },
            )
        }
    }
}

/// The removed and the added entries of two nodes: their leaves and what is
/// below their first child slots. Subtrees with equal hashes count as equal.
pub open spec fn diff_upto<K: HamtCodec, V: HamtCodec>(
    a: HamtNode<K, V>,
    b: HamtNode<K, V>,
    store: spec_fn(StructuralHash) -> HamtNode<K, V>,
    levels: nat,
    n: nat,
) -> (Seq<(K, V)>, Seq<(K, V)>)
    decreases levels, n,
{
    if levels == 0 {
        (Seq::empty(), Seq::empty())
    } else if n == 0 {
        leaf_diff(a, b, 32)
    } else {
        let (removed, added) = diff_upto(a, b, store, levels, (n - 1) as nat);
        let slot = n - 1;
        let in_a = slot_set(a.nodemap, slot);
        let in_b = slot_set(b.nodemap, slot);
        let below = (levels - 1) as nat;
        let ca = node_at(a.child(slot), store);
        let cb = node_at(b.child(slot), store);
        if in_a && in_b {
            if ref_hash(a.child(slot)) == ref_hash(b.child(slot)) || ca.structural_hash@
                == cb.structural_hash@ {
                (removed, added)
            } else {
                let (more_removed, more_added) = diff_upto(ca, cb, store, below, 32);
                (removed + more_removed, added + more_added)
            }
        } else if in_a {
            let (gone, new) = beside(entry_list(ca, store, below), slot_leaf(b, slot));
            (removed + gone, added + new)
        } else if in_b {
            let (new, gone) = beside(entry_list(cb, store, below), slot_leaf(a, slot));
            (removed + gone, added + new)
        } else {
            (removed, added)
        }
    }
}

/// The comparison of two nodes reaches a child slot that leads too deep.
pub open spec fn diff_deep<K: HamtCodec, V: HamtCodec>(
    a: HamtNode<K, V>,
    b: HamtNode<K, V>,
    store: spec_fn(StructuralHash) -> HamtNode<K, V>,
    levels: nat,
    n: nat,
) -> bool
    decreases levels, n,
{
    if levels == 0 {
        true
    } else if n == 0 {
        false
    } else {
        let slot = n - 1;
        let in_a = slot_set(a.nodemap, slot);
        let in_b = slot_set(b.nodemap, slot);
        let below = (levels - 1) as nat;
        let ca = node_at(a.child(slot), store);
        let cb = node_at(b.child(slot), store);
        ||| diff_deep(a, b, store, levels, (n - 1) as nat)
        ||| if in_a && in_b {
            &&& ref_hash(a.child(slot)) != ref_hash(b.child(slot))
            &&& ca.structural_hash@ != cb.structural_hash@
            &&& diff_deep(ca, cb, store, below, 32)
        } else if in_a {
            too_deep(ca, store, below)
        } else {
            in_b && too_deep(cb, store, below)
        }
    }
}

/// Everything that comparing the first child slots of two nodes looks at is
/// loaded. Children with equal hashes are not looked at.
pub open spec fn compared_upto<K: HamtCodec, V: HamtCodec>(
    load: spec_fn(StructuralHash, HamtNode<K, V>) -> bool,
    store: spec_fn(StructuralHash) -> HamtNode<K, V>,
    a: HamtNode<K, V>,
    b: HamtNode<K, V>,
    levels: nat,
    n: int,
) -> bool
    decreases levels,
{
    levels > 0 ==> forall|slot: int| #[trigger]
        is_slot(slot) && slot < n ==> {
            let in_a = slot_set(a.nodemap, slot);
            let in_b = slot_set(b.nodemap, slot);
            let ca = node_at(a.child(slot), store);
            let cb = node_at(b.child(slot), store);
            let below = (levels - 1) as nat;
            if in_a && in_b {
                ref_hash(a.child(slot)) != ref_hash(b.child(slot)) ==> {
                    &&& child_loads(load, store, a.child(slot))
                    &&& child_loads(load, store, b.child(slot))
                    &&& ca.structural_hash@ != cb.structural_hash@ ==> compared_upto(
                        load,
                        store,
                        ca,
                        cb,
                        below,
                        32,
                    )
                }
            } else if in_a {
                child_loads(load, store, a.child(slot)) && all_loaded(load, store, ca, below)
            } else {
                in_b ==> child_loads(load, store, b.child(slot)) && all_loaded(
                    load,
                    store,
                    cb,
                    below,
                )
            }
        }
}

/// Comparing two nodes gets as far as a lazy child or a node that is too deep:
/// everything looked at before has been loaded.
pub open spec fn compare_stops<K: HamtCodec, V: HamtCodec>(
    load: spec_fn(StructuralHash, HamtNode<K, V>) -> bool,
    store: spec_fn(StructuralHash) -> HamtNode<K, V>,
    a: HamtNode<K, V>,
    b: HamtNode<K, V>,
    levels: nat,
    stop: Stop,
) -> bool
    decreases levels,
{
    if levels == 0 {
        stop == Stop::Depth
    } else {
        exists|slot: int| #[trigger]
            is_slot(slot) && compared_upto(load, store, a, b, levels, slot) && {
                let in_a = slot_set(a.nodemap, slot);
                let in_b = slot_set(b.nodemap, slot);
                let ca = node_at(a.child(slot), store);
                let cb = node_at(b.child(slot), store);
                let below = (levels - 1) as nat;
                if in_a && in_b {
                    &&& ref_hash(a.child(slot)) != ref_hash(b.child(slot))
                    &&& {
                        ||| loads_next(a.child(slot), stop)
                        ||| child_loads(load, store, a.child(slot)) && loads_next(
                            b.child(slot),
                            stop,
                        )
                        ||| {
                            &&& child_loads(load, store, a.child(slot))
                            &&& child_loads(load, store, b.child(slot))
                            &&& ca.structural_hash@ != cb.structural_hash@
                            &&& compare_stops(load, store, ca, cb, below, stop)
                        }
                    }
                } else if in_a {
                    subtree_stops(load, store, a.child(slot), below, stop)
                } else {
                    in_b && subtree_stops(load, store, b.child(slot), below, stop)
                }
            }
    }
}

/// A walk of a child stops: before it is loaded, or below.
pub open spec fn subtree_stops<K, V>(
    load: spec_fn(StructuralHash, HamtNode<K, V>) -> bool,
    store: spec_fn(StructuralHash) -> HamtNode<K, V>,
    child: NodeRef<K, V>,
    levels: nat,
    stop: Stop,
) -> bool {
    ||| loads_next(child, stop)
    ||| child_loads(load, store, child) && exists|at: int| #[trigger]
        stops(load, store, node_at(child, store), levels, stop, at)
}

/// The resolver may fail with the error for the child that a comparison loads
/// next.
pub open spec fn diff_load_fails<K: HamtCodec, V: HamtCodec, F, E>(
    resolver: F,
    a: HamtNode<K, V>,
    b: HamtNode<K, V>,
    store: spec_fn(StructuralHash) -> HamtNode<K, V>,
    levels: nat,
    error: E,
) -> bool where F: FnMut(&StructuralHash) -> Result<Arc<HamtNode<K, V>>, E> {
    exists|hash: StructuralHash| #[trigger]
        call_ensures(resolver, (&hash,), Err::<Arc<HamtNode<K, V>>, E>(error)) && compare_stops(
            loader::<K, V, E, F>(resolver),
            store,
            a,
            b,
            levels,
            Stop::Load(hash),
        )
}

/// A comparison comes to a node that is too deep.
pub open spec fn diff_too_deep<K: HamtCodec, V: HamtCodec>(
    load: spec_fn(StructuralHash, HamtNode<K, V>) -> bool,
    store: spec_fn(StructuralHash) -> HamtNode<K, V>,
    a: HamtNode<K, V>,
    b: HamtNode<K, V>,
    levels: nat,
) -> bool {
    diff_deep(a, b, store, levels, 32) && compare_stops(load, store, a, b, levels, Stop::Depth)
}

/// A child in a slot cannot be loaded.
proof fn diff_fails_at<K: HamtCodec, V: HamtCodec, F, E>(
    resolver: F,
    a: HamtNode<K, V>,
    b: HamtNode<K, V>,
    store: spec_fn(StructuralHash) -> HamtNode<K, V>,
    levels: nat,
    slot: int,
    child: NodeRef<K, V>,
    error: E,
) where F: FnMut(&StructuralHash) -> Result<Arc<HamtNode<K, V>>, E>
    requires
        levels > 0,
        0 <= slot < 32,
        compared_upto(loader::<K, V, E, F>(resolver), store, a, b, levels, slot),
        slot_set(a.nodemap, slot) && child == a.child(slot) || slot_set(b.nodemap, slot) && child
            == b.child(slot) && (slot_set(a.nodemap, slot) ==> child_loads(
            loader::<K, V, E, F>(resolver),
            store,
            a.child(slot),
        )),
        slot_set(a.nodemap, slot) && slot_set(b.nodemap, slot) ==> ref_hash(a.child(slot))
            != ref_hash(b.child(slot)),
        child is Lazy,
        call_ensures(resolver, (&child->Lazy_0,), Err::<Arc<HamtNode<K, V>>, E>(error)),
    ensures
        diff_load_fails::<K, V, F, E>(resolver, a, b, store, levels, error),
{
    let hash = child->Lazy_0;
    assert(child == NodeRef::<K, V>::Lazy(hash));
    assert(is_slot(slot));
    assert(compare_stops(
        loader::<K, V, E, F>(resolver),
        store,
        a,
        b,
        levels,
        Stop::Load(hash),
    ));
}

/// A comparison of two children stops where that of the nodes does.
proof fn compare_stops_below<K: HamtCodec, V: HamtCodec>(
    load: spec_fn(StructuralHash, HamtNode<K, V>) -> bool,
    store: spec_fn(StructuralHash) -> HamtNode<K, V>,
    a: HamtNode<K, V>,
    b: HamtNode<K, V>,
    levels: nat,
    slot: int,
    stop: Stop,
)
    requires
        levels > 0,
        0 <= slot < 32,
        compared_upto(load, store, a, b, levels, slot),
        slot_set(a.nodemap, slot),
        slot_set(b.nodemap, slot),
        ref_hash(a.child(slot)) != ref_hash(b.child(slot)),
        child_loads(load, store, a.child(slot)),
        child_loads(load, store, b.child(slot)),
        node_at(a.child(slot), store).structural_hash@ != node_at(
            b.child(slot),
            store,
        ).structural_hash@,
        compare_stops(
            load,
            store,
            node_at(a.child(slot), store),
            node_at(b.child(slot), store),
            (levels - 1) as nat,
            stop,
        ),
    ensures
        compare_stops(load, store, a, b, levels, stop),
{
    assert(is_slot(slot));
}

/// A walk of the only child in a slot stops where the comparison does.
proof fn compare_stops_beside<K: HamtCodec, V: HamtCodec>(
    load: spec_fn(StructuralHash, HamtNode<K, V>) -> bool,
    store: spec_fn(StructuralHash) -> HamtNode<K, V>,
    a: HamtNode<K, V>,
    b: HamtNode<K, V>,
    levels: nat,
    slot: int,
    child: NodeRef<K, V>,
    stop: Stop,
    at: int,
)
    requires
        levels > 0,
        0 <= slot < 32,
        compared_upto(load, store, a, b, levels, slot),
        slot_set(a.nodemap, slot) != slot_set(b.nodemap, slot),
        child == if slot_set(a.nodemap, slot) {
            a.child(slot)
        } else {
            b.child(slot)
        },
        child_loads(load, store, child),
        stops(load, store, node_at(child, store), (levels - 1) as nat, stop, at),
    ensures
        compare_stops(load, store, a, b, levels, stop),
{
    assert(is_slot(slot));
    assert(subtree_stops(load, store, child, (levels - 1) as nat, stop));
}

/// Something below two children in a slot cannot be loaded.
proof fn diff_fails_below<K: HamtCodec, V: HamtCodec, F, E>(
    resolver: F,
    a: HamtNode<K, V>,
    b: HamtNode<K, V>,
    store: spec_fn(StructuralHash) -> HamtNode<K, V>,
    levels: nat,
    slot: int,
    error: E,
) where F: FnMut(&StructuralHash) -> Result<Arc<HamtNode<K, V>>, E>
    requires
        levels > 0,
        0 <= slot < 32,
        compared_upto(loader::<K, V, E, F>(resolver), store, a, b, levels, slot),
        slot_set(a.nodemap, slot),
        slot_set(b.nodemap, slot),
        ref_hash(a.child(slot)) != ref_hash(b.child(slot)),
        child_loads(loader::<K, V, E, F>(resolver), store, a.child(slot)),
        child_loads(loader::<K, V, E, F>(resolver), store, b.child(slot)),
        node_at(a.child(slot), store).structural_hash@ != node_at(
            b.child(slot),
            store,
        ).structural_hash@,
        diff_load_fails::<K, V, F, E>(
            resolver,
            node_at(a.child(slot), store),
            node_at(b.child(slot), store),
            store,
            (levels - 1) as nat,
            error,
        ),
    ensures
        diff_load_fails::<K, V, F, E>(resolver, a, b, store, levels, error),
{
    let load = loader::<K, V, E, F>(resolver);
    let ca = node_at(a.child(slot), store);
    let cb = node_at(b.child(slot), store);
    let hash = choose|hash: StructuralHash| #[trigger]
        call_ensures(resolver, (&hash,), Err::<Arc<HamtNode<K, V>>, E>(error)) && compare_stops(
            load,
            store,
            ca,
            cb,
            (levels - 1) as nat,
            Stop::Load(hash),
        );
    compare_stops_below(load, store, a, b, levels, slot, Stop::Load(hash));
}

/// Something below the only child in a slot cannot be loaded.
proof fn diff_fails_beside<K: HamtCodec, V: HamtCodec, F, E>(
    resolver: F,
    a: HamtNode<K, V>,
    b: HamtNode<K, V>,
    store: spec_fn(StructuralHash) -> HamtNode<K, V>,
    levels: nat,
    slot: int,
    child: NodeRef<K, V>,
    error: E,
) where F: FnMut(&StructuralHash) -> Result<Arc<HamtNode<K, V>>, E>
    requires
        levels > 0,
        0 <= slot < 32,
        compared_upto(loader::<K, V, E, F>(resolver), store, a, b, levels, slot),
        slot_set(a.nodemap, slot) != slot_set(b.nodemap, slot),
        child == if slot_set(a.nodemap, slot) {
            a.child(slot)
        } else {
            b.child(slot)
        },
        child_loads(loader::<K, V, E, F>(resolver), store, child),
        load_fails::<K, V, E, F>(
            resolver,
            node_at(child, store),
            store,
            (levels - 1) as nat,
            error,
        ),
    ensures
        diff_load_fails::<K, V, F, E>(resolver, a, b, store, levels, error),
{
    let load = loader::<K, V, E, F>(resolver);
    let (hash, at) = choose|hash: StructuralHash, at: int| #[trigger]
        stops(
            load,
            store,
            node_at(child, store),
            (levels - 1) as nat,
            Stop::Load(hash),
            at,
        ) && call_ensures(resolver, (&hash,), Err::<Arc<HamtNode<K, V>>, E>(error));
    compare_stops_beside(load, store, a, b, levels, slot, child, Stop::Load(hash), at);
}

/// One more slot has been compared.
proof fn compared_more<K: HamtCodec, V: HamtCodec>(
    load: spec_fn(StructuralHash, HamtNode<K, V>) -> bool,
    store: spec_fn(StructuralHash) -> HamtNode<K, V>,
    a: HamtNode<K, V>,
    b: HamtNode<K, V>,
    levels: nat,
    slot: int,
)
    requires
        levels > 0,
        0 <= slot < 32,
        compared_upto(load, store, a, b, levels, slot),
        slot_set(a.nodemap, slot) && slot_set(b.nodemap, slot) && ref_hash(a.child(slot))
            != ref_hash(b.child(slot)) ==> {
            let ca = node_at(a.child(slot), store);
            let cb = node_at(b.child(slot), store);
            &&& child_loads(load, store, a.child(slot))
            &&& child_loads(load, store, b.child(slot))
            &&& ca.structural_hash@ != cb.structural_hash@ ==> compared_upto(
                load,
                store,
                ca,
                cb,
                (levels - 1) as nat,
                32,
            )
        },
        slot_set(a.nodemap, slot) && !slot_set(b.nodemap, slot) ==> child_loads(
            load,
            store,
            a.child(slot),
        ) && all_loaded(load, store, node_at(a.child(slot), store), (levels - 1) as nat),
        slot_set(b.nodemap, slot) && !slot_set(a.nodemap, slot) ==> child_loads(
            load,
            store,
            b.child(slot),
        ) && all_loaded(load, store, node_at(b.child(slot), store), (levels - 1) as nat),
    ensures
        compared_upto(load, store, a, b, levels, slot + 1),
{
}

/// A deep slot stays deep with more slots.
proof fn diff_deep_grows<K: HamtCodec, V: HamtCodec>(
    a: HamtNode<K, V>,
    b: HamtNode<K, V>,
    store: spec_fn(StructuralHash) -> HamtNode<K, V>,
    levels: nat,
    n: nat,
    m: nat,
)
    requires
        n <= m,
        diff_deep(a, b, store, levels, n),
    ensures
        diff_deep(a, b, store, levels, m),
    decreases m,
{
    if n < m {
        diff_deep_grows(a, b, store, levels, n, (m - 1) as nat);
    }
}

/// What comparing two nodes adds to the lists of removed and added entries.
pub open spec fn diff_outcome<K: HamtCodec, V: HamtCodec, F, E>(
    resolver: F,
    a: HamtNode<K, V>,
    b: HamtNode<K, V>,
    levels: nat,
    removed: (Seq<(K, V)>, Seq<(K, V)>),
    added: (Seq<(K, V)>, Seq<(K, V)>),
    result: Result<(), HamtTraversalError<E>>,
) -> bool where F: FnMut(&StructuralHash) -> Result<Arc<HamtNode<K, V>>, E> {
    let load = loader::<K, V, E, F>(resolver);
    forall|store: spec_fn(StructuralHash) -> HamtNode<K, V>|
        #![trigger readable(load, store, a, levels), readable(load, store, b, levels)]
        readable(load, store, a, levels) && readable(load, store, b, levels) ==> match result {
            Ok(_) => if a.structural_hash@ == b.structural_hash@ {
                removed.1 == removed.0 && added.1 == added.0
            } else {
                let (gone, new) = diff_upto(a, b, store, levels, 32);
                &&& appended(removed.0, removed.1, gone)
                &&& appended(added.0, added.1, new)
                &&& compared_upto(load, store, a, b, levels, 32)
                &&& !diff_deep(a, b, store, levels, 32)
            },
            Err(HamtTraversalError::Resolve(error)) => a.structural_hash@ != b.structural_hash@
                && diff_load_fails::<K, V, F, E>(resolver, a, b, store, levels, error),
            Err(HamtTraversalError::MaxDepthExceeded { depth }) => a.structural_hash@
                != b.structural_hash@ && depth == 52 && diff_too_deep(load, store, a, b, levels),
        }
}

/// Lists the leaf entries in which two nodes differ.
fn diff_leaves<K, V>(
    node_a: &HamtNode<K, V>,
    node_b: &HamtNode<K, V>,
    added: &mut Vec<(K, V)>,
    removed: &mut Vec<(K, V)>,
) where K: HamtCodec + Clone, V: HamtCodec + Clone
    requires
        node_a.shape(),
        node_b.shape(),
        clone_keeps::<K>(),
        clone_keeps::<V>(),
    ensures
        appended(old(removed)@, final(removed)@, leaf_diff(*node_a, *node_b, 32).0),
        appended(old(added)@, final(added)@, leaf_diff(*node_a, *node_b, 32).1),
{
    let ghost removed_before = removed@;
    let ghost added_before = added@;
    let mut index_a: usize = 0;
    let mut index_b: usize = 0;
    let mut slot: usize = 0;
    while slot < 32
        invariant
            slot <= 32,
            node_a.shape(),
            node_b.shape(),
            clone_keeps::<K>(),
            clone_keeps::<V>(),
            index_a <= slot,
            index_b <= slot,
            index_a == rank(node_a.datamap, slot as int),
            index_b == rank(node_b.datamap, slot as int),
            appended(removed_before, removed@, leaf_diff(*node_a, *node_b, slot as nat).0),
            appended(added_before, added@, leaf_diff(*node_a, *node_b, slot as nat).1),
        decreases 32 - slot,
    {
        let in_a: bool = has_slot(node_a.datamap, slot);
        let in_b: bool = has_slot(node_b.datamap, slot);
        let under_a: bool = has_slot(node_a.nodemap, slot);
        let under_b: bool = has_slot(node_b.nodemap, slot);
        let ghost removed_middle = removed@;
        let ghost added_middle = added@;
        let ghost gone = leaf_diff(*node_a, *node_b, slot as nat).0;
        let ghost new = leaf_diff(*node_a, *node_b, slot as nat).1;
        proof {
            rank_monotone(node_a.datamap, slot + 1, 32);
            rank_monotone(node_b.datamap, slot + 1, 32);
            if in_a {
                leaf_in_range(*node_a, slot as int);
            }
            if in_b {
                leaf_in_range(*node_b, slot as int);
            }
            if under_a {
                disjoint_slots(node_a.datamap, node_a.nodemap, slot as int);
            }
            if under_b {
                disjoint_slots(node_b.datamap, node_b.nodemap, slot as int);
            }
        }
        if in_a && in_b {
            let entry_a: &(K, V) = &node_a.leaves[index_a];
            let entry_b: &(K, V) = &node_b.leaves[index_b];
            if !entry_a.0.same_encoding(&entry_b.0) || !entry_a.1.same_encoding(&entry_b.1) {
                push_copy(removed, entry_a);
                push_copy(added, entry_b);
                proof {
                    appended_more(removed_before, removed_middle, removed@, gone, seq![*entry_a]);
                    appended_more(added_before, added_middle, added@, new, seq![*entry_b]);
                }
            }
            index_a = index_a + 1;
            index_b = index_b + 1;
        } else if in_a {
            if !under_b {
                let entry_a: &(K, V) = &node_a.leaves[index_a];
                push_copy(removed, entry_a);
                proof {
                    appended_more(removed_before, removed_middle, removed@, gone, seq![*entry_a]);
                }
            }
            index_a = index_a + 1;
        } else if in_b {
            if !under_a {
                let entry_b: &(K, V) = &node_b.leaves[index_b];
                push_copy(added, entry_b);
                proof {
                    appended_more(added_before, added_middle, added@, new, seq![*entry_b]);
                }
            }
            index_b = index_b + 1;
        }
        slot = slot + 1;
    }
}

/// Copies of a list have copies of the same entries.
proof fn beside_copies<K: HamtCodec, V: HamtCodec>(
    list: Seq<(K, V)>,
    entries: Seq<(K, V)>,
    leaf: (K, V),
)
    requires
        appended(Seq::empty(), list, entries),
    ensures
        lists_entry(list, leaf) == lists_entry(entries, leaf),
        appended(Seq::empty(), without_entry(list, leaf), without_entry(entries, leaf)),
    decreases entries.len(),
{
    let none = Seq::<(K, V)>::empty();
    assert forall|i: int| 0 <= i < entries.len() implies is_copy(#[trigger] entries[i], list[i]) by {
        assert(is_copy(entries[i], list[none.len() + i]));
    }
    if lists_entry(list, leaf) {
        let i = choose|i: int| 0 <= i < list.len() && same_leaf(#[trigger] list[i], leaf);
        assert(same_leaf(entries[i], leaf));
    }
    if lists_entry(entries, leaf) {
        let i = choose|i: int| 0 <= i < entries.len() && same_leaf(#[trigger] entries[i], leaf);
        assert(same_leaf(list[i], leaf));
    }
    if entries.len() > 0 {
        let short_list = list.drop_last();
        let short = entries.drop_last();
        assert forall|i: int| 0 <= i < short.len() implies is_copy(
            #[trigger] short[i],
            short_list[none.len() + i],
        ) by {
            assert(is_copy(entries[i], list[i]));
        }
        assert(appended(none, short_list, short));
        beside_copies(short_list, short, leaf);
        assert(is_copy(entries[entries.len() - 1], list[entries.len() - 1]));
        let x = without_entry(list, leaf);
        let y = without_entry(entries, leaf);
        let xs = without_entry(short_list, leaf);
        let ys = without_entry(short, leaf);
        assert forall|i: int| 0 <= i < y.len() implies is_copy(
            #[trigger] y[i],
            x[none.len() + i],
        ) by {
            if i < ys.len() {
                assert(is_copy(ys[i], xs[none.len() + i]));
            }
            if i < short.len() {
                assert(is_copy(short[i], short_list[none.len() + i]));
            }
        }
    }
}

/// Without the entry nothing is left out.
proof fn without_absent<K: HamtCodec, V: HamtCodec>(list: Seq<(K, V)>, entry: (K, V))
    requires
        !lists_entry(list, entry),
    ensures
        without_entry(list, entry) == list,
    decreases list.len(),
{
    if list.len() > 0 {
        let short = list.drop_last();
        assert(!same_leaf(list[list.len() - 1], entry));
        if lists_entry(short, entry) {
            let i = choose|i: int| 0 <= i < short.len() && same_leaf(#[trigger] short[i], entry);
            assert(same_leaf(list[i], entry));
        }
        without_absent(short, entry);
        assert(short.push(list.last()) =~= list);
    }
}

/// Appends what a subtree has beside a leaf to the list of its side, and the
/// leaf, where the subtree lacks it, to the list of the other side.
fn settle_beside<K, V>(
    entries: &Vec<(K, V)>,
    leaf: Option<&(K, V)>,
    own: &mut Vec<(K, V)>,
    other: &mut Vec<(K, V)>,
) where K: HamtCodec + Clone, V: HamtCodec + Clone
    requires
        clone_keeps::<K>(),
        clone_keeps::<V>(),
        leaves_encodable(entries@),
        leaf matches Some(leaf) ==> leaf.0.encodable() && leaf.1.encodable(),
    ensures
        ({
            let (more, rest) = beside(
                entries@,
                match leaf {
                    Some(leaf) => Some(*leaf),
                    None => None,
                },
            );
            &&& appended(old(own)@, final(own)@, more)
            &&& appended(old(other)@, final(other)@, rest)
        }),
{
    let ghost before = own@;
    let ghost whole = match leaf {
        Some(leaf) => Some(*leaf),
        None => None,
    };
    let mut found: bool = false;
    let mut index: usize = 0;
    proof {
        assert(entries@.take(0) =~= Seq::<(K, V)>::empty());
    }
    while index < entries.len()
        invariant
            index <= entries.len(),
            clone_keeps::<K>(),
            clone_keeps::<V>(),
            leaves_encodable(entries@),
            leaf matches Some(leaf) ==> leaf.0.encodable() && leaf.1.encodable(),
            whole == (match leaf {
                Some(leaf) => Some(*leaf),
                None => None,
            }),
            whole matches Some(leaf) ==> found == lists_entry(
                entries@.take(index as int),
                leaf,
            ),
            whole is None ==> !found,
            appended(before, own@, beside(entries@.take(index as int), whole).0),
            other@ == old(other)@,
        decreases entries.len() - index,
    {
        let entry: &(K, V) = &entries[index];
        let ghost middle = own@;
        let ghost taken = entries@.take(index as int);
        let ghost next = entries@.take(index + 1);
        let hit: bool = match leaf {
            Some(leaf) => !found && entry.0.same_encoding(&leaf.0) && entry.1.same_encoding(
                &leaf.1,
            ),
            None => false,
        };
        proof {
            assert(next.drop_last() =~= taken);
            assert(next.last() == *entry);
            assert(next =~= taken.push(*entry));
            if whole is Some {
                let leaf = whole->0;
                if lists_entry(taken, leaf) {
                    let i = choose|i: int|
                        0 <= i < taken.len() && same_leaf(#[trigger] taken[i], leaf);
                    assert(same_leaf(next[i], leaf));
                }
                if same_leaf(*entry, leaf) {
                    assert(same_leaf(next[index as int], leaf));
                }
                if lists_entry(next, leaf) && !lists_entry(taken, leaf) {
                    let i = choose|i: int|
                        0 <= i < next.len() && same_leaf(#[trigger] next[i], leaf);
                    if i < index {
                        assert(same_leaf(taken[i], leaf));
                    }
                }
                if hit {
                    without_absent(taken, leaf);
                }
            }
        }
        if hit {
            found = true;
        } else {
            push_copy(own, entry);
            proof {
                let kept = beside(taken, whole).0;
                appended_more(before, middle, own@, kept, seq![*entry]);
                assert(kept + seq![*entry] =~= kept.push(*entry));
                assert(beside(next, whole).0 =~= kept.push(*entry));
            }
        }
        index = index + 1;
    }
    proof {
        assert(entries@.take(index as int) =~= entries@);
    }
    if let Some(leaf) = leaf {
        if !found {
            push_copy(other, leaf);
        }
    }
}

/// A readable trie is loadable.
pub proof fn readable_loadable<K: HamtCodec, V: HamtCodec>(
    load: spec_fn(StructuralHash, HamtNode<K, V>) -> bool,
    store: spec_fn(StructuralHash) -> HamtNode<K, V>,
    node: HamtNode<K, V>,
    levels: nat,
)
    requires
        readable(load, store, node, levels),
    ensures
        loadable(load, store, node, levels),
    decreases levels,
{
    if levels > 0 {
        assert forall|i: int| 0 <= i < node.children@.len() implies {
            &&& (#[trigger] node.children@[i]) matches NodeRef::Lazy(h) ==> forall|
                n: HamtNode<K, V>,
            | #[trigger]
                load(h, n) ==> n == store(h)
            &&& loadable(load, store, node_at(node.children@[i], store), (levels - 1) as nat)
        } by {
            readable_loadable(
                load,
                store,
                node_at(node.children@[i], store),
                (levels - 1) as nat,
            );
        }
    }
}

/// The leaf of a slot, if there is one.
fn leaf_at<K: HamtCodec, V: HamtCodec>(node: &HamtNode<K, V>, slot: usize) -> (leaf: Option<
    &(K, V),
>)
    requires
        node.shape(),
        slot < 32,
    ensures
        match leaf {
            Some(leaf) => slot_leaf(*node, slot as int) == Some(*leaf) && leaf.0.encodable()
                && leaf.1.encodable(),
            None => slot_leaf(*node, slot as int) is None,
        },
{
    if has_slot(node.datamap, slot) {
        proof {
            leaf_in_range(*node, slot as int);
        }
        Some(&node.leaves[map_index(node.datamap, slot)])
    } else {
        None
    }
}

/// What stands beside a copied list are copies of what stands beside the list.
proof fn settled_copies<K: HamtCodec, V: HamtCodec>(
    list: Seq<(K, V)>,
    entries: Seq<(K, V)>,
    leaf: Option<(K, V)>,
    own: (Seq<(K, V)>, Seq<(K, V)>),
    other: (Seq<(K, V)>, Seq<(K, V)>),
)
    requires
        appended(Seq::empty(), list, entries),
        appended(own.0, own.1, beside(list, leaf).0),
        appended(other.0, other.1, beside(list, leaf).1),
    ensures
        appended(own.0, own.1, beside(entries, leaf).0),
        appended(other.0, other.1, beside(entries, leaf).1),
{
    let none = Seq::<(K, V)>::empty();
    if leaf is Some {
        beside_copies(list, entries, leaf->0);
    }
    let x = beside(list, leaf).0;
    let y = beside(entries, leaf).0;
    assert forall|i: int| 0 <= i < y.len() implies is_copy(
        #[trigger] y[i],
        own.1[own.0.len() + i],
    ) by {
        assert(is_copy(y[i], x[none.len() + i]));
        assert(is_copy(x[i], own.1[own.0.len() + i]));
    }
}

/// Copies of the entries of a readable trie can be encoded.
proof fn copies_encodable<K: HamtCodec, V: HamtCodec>(
    load: spec_fn(StructuralHash, HamtNode<K, V>) -> bool,
    store: spec_fn(StructuralHash) -> HamtNode<K, V>,
    node: HamtNode<K, V>,
    levels: nat,
    copies: Seq<(K, V)>,
)
    requires
        readable(load, store, node, levels),
        appended(Seq::empty(), copies, entry_list(node, store, levels)),
    ensures
        leaves_encodable(copies),
{
    readable_encodable(load, store, node, levels, node.children@.len());
    let none = Seq::<(K, V)>::empty();
    let entries = entry_list(node, store, levels);
    assert forall|i: int| 0 <= i < copies.len() implies (#[trigger] copies[i]).0.encodable()
        && copies[i].1.encodable() by {
        assert(is_copy(entries[i], copies[none.len() + i]));
    }
}

/// The entries of a readable trie can be encoded.
proof fn readable_encodable<K: HamtCodec, V: HamtCodec>(
    load: spec_fn(StructuralHash, HamtNode<K, V>) -> bool,
    store: spec_fn(StructuralHash) -> HamtNode<K, V>,
    node: HamtNode<K, V>,
    levels: nat,
    n: nat,
)
    requires
        readable(load, store, node, levels),
        n <= node.children@.len(),
    ensures
        leaves_encodable(entries_upto(node, store, levels, n)),
    decreases levels, n,
{
    if levels > 0 && n > 0 {
        readable_encodable(load, store, node, levels, (n - 1) as nat);
        let child = node_at(node.children@[n - 1], store);
        let below = (levels - 1) as nat;
        assert(readable(load, store, child, below));
        readable_encodable(load, store, child, below, child.children@.len());
    }
}

/// Lists the entries in which two nodes at a depth differ.
fn diff_nodes<K, V, F, E>(
    node_a: &Arc<HamtNode<K, V>>,
    node_b: &Arc<HamtNode<K, V>>,
    added: &mut Vec<(K, V)>,
    removed: &mut Vec<(K, V)>,
    resolver: &mut F,
    depth: usize,
) -> (result: Result<(), HamtTraversalError<E>>) where
    K: HamtCodec + Clone,
    V: HamtCodec + Clone,
    F: FnMut(&StructuralHash) -> Result<Arc<HamtNode<K, V>>, E>,

    requires
        depth <= 52,
        resolver_total::<K, V, E, F>(*old(resolver)),
        clone_keeps::<K>(),
        clone_keeps::<V>(),
        both_readable(loader::<K, V, E, F>(*old(resolver)), **node_a, **node_b, (52 - depth) as nat),
    ensures
        *final(resolver) == *old(resolver),
        diff_outcome::<K, V, F, E>(
            *old(resolver),
            **node_a,
            **node_b,
            (52 - depth) as nat,
            (old(removed)@, final(removed)@),
            (old(added)@, final(added)@),
            result,
        ),
    decreases 52 - depth,
{
    if same_hash(&node_a.structural_hash, &node_b.structural_hash) {
        return Ok(());
    }
    let a: &HamtNode<K, V> = &**node_a;
    let b: &HamtNode<K, V> = &**node_b;
    if depth >= HAMT_MAX_DEPTH {
        return Err(HamtTraversalError::MaxDepthExceeded { depth });
    }
    let ghost levels = (52 - depth) as nat;
    let ghost load = loader::<K, V, E, F>(*resolver);
    let ghost removed_before = removed@;
    let ghost added_before = added@;
    let ghost witness = choose|store: spec_fn(StructuralHash) -> HamtNode<K, V>|
        #![trigger readable(load, store, *a, levels), readable(load, store, *b, levels)]
        readable(load, store, *a, levels) && readable(load, store, *b, levels);
    proof {
        assert(readable(load, witness, *a, levels) && readable(load, witness, *b, levels));
    }
    diff_leaves(a, b, added, removed);
    let mut index_a: usize = 0;
    let mut index_b: usize = 0;
    let mut slot: usize = 0;
    while slot < 32
        invariant
            slot <= 32,
            depth < 52,
            levels == 52 - depth,
            *a == **node_a,
            *b == **node_b,
            a.shape(),
            b.shape(),
            a.structural_hash@ != b.structural_hash@,
            removed_before == old(removed)@,
            added_before == old(added)@,
            *resolver == *old(resolver),
            load == loader::<K, V, E, F>(*resolver),
            resolver_total::<K, V, E, F>(*resolver),
            clone_keeps::<K>(),
            clone_keeps::<V>(),
            readable(load, witness, *a, levels),
            readable(load, witness, *b, levels),
            index_a <= slot,
            index_b <= slot,
            index_a == rank(a.nodemap, slot as int),
            index_b == rank(b.nodemap, slot as int),
            forall|store: spec_fn(StructuralHash) -> HamtNode<K, V>|
                #![trigger readable(load, store, *a, levels), readable(load, store, *b, levels)]
                readable(load, store, *a, levels) && readable(load, store, *b, levels) ==> {
                    let (gone, new) = diff_upto(*a, *b, store, levels, slot as nat);
                    &&& appended(removed_before, removed@, gone)
                    &&& appended(added_before, added@, new)
                    &&& compared_upto(load, store, *a, *b, levels, slot as int)
                    &&& !diff_deep(*a, *b, store, levels, slot as nat)
                },
        decreases 32 - slot,
    {
        let in_a: bool = has_slot(a.nodemap, slot);
        let in_b: bool = has_slot(b.nodemap, slot);
        let ghost removed_middle = removed@;
        let ghost added_middle = added@;
        let ghost s = slot as int;
        proof {
            rank_monotone(a.nodemap, slot + 1, 32);
            rank_monotone(b.nodemap, slot + 1, 32);
        }
        if in_a && in_b {
            let ref_a: &NodeRef<K, V> = &a.children[index_a];
            let ref_b: &NodeRef<K, V> = &b.children[index_b];
            let hash_a: StructuralHash = ref_a.structural_hash();
            let hash_b: StructuralHash = ref_b.structural_hash();
            if !same_hash(&hash_a, &hash_b) {
                let child_a: Arc<HamtNode<K, V>> = match resolve_node(ref_a, resolver) {
                    Ok(node) => node,
                    Err(error) => {
                        proof {
                            assert forall|store: spec_fn(StructuralHash) -> HamtNode<K, V>|
                                #![trigger readable(load, store, *a, levels), readable(load, store, *b, levels)]
                                readable(load, store, *a, levels) && readable(
                                    load,
                                    store,
                                    *b,
                                    levels,
                                ) implies diff_load_fails::<K, V, F, E>(
                                *resolver,
                                *a,
                                *b,
                                store,
                                levels,
                                error,
                            ) by {
                                diff_fails_at::<K, V, F, E>(
                                    *resolver,
                                    *a,
                                    *b,
                                    store,
                                    levels,
                                    s,
                                    *ref_a,
                                    error,
                                );
                            }
                        }
                        return Err(HamtTraversalError::Resolve(error));
                    },
                };
                let child_b: Arc<HamtNode<K, V>> = match resolve_node(ref_b, resolver) {
                    Ok(node) => node,
                    Err(error) => {
                        proof {
                            assert forall|store: spec_fn(StructuralHash) -> HamtNode<K, V>|
                                #![trigger readable(load, store, *a, levels), readable(load, store, *b, levels)]
                                readable(load, store, *a, levels) && readable(
                                    load,
                                    store,
                                    *b,
                                    levels,
                                ) implies diff_load_fails::<K, V, F, E>(
                                *resolver,
                                *a,
                                *b,
                                store,
                                levels,
                                error,
                            ) by {
                                diff_fails_at::<K, V, F, E>(
                                    *resolver,
                                    *a,
                                    *b,
                                    store,
                                    levels,
                                    s,
                                    *ref_b,
                                    error,
                                );
                            }
                        }
                        return Err(HamtTraversalError::Resolve(error));
                    },
                };
                proof {
                    assert forall|store: spec_fn(StructuralHash) -> HamtNode<K, V>|
                        #![trigger readable(load, store, *a, levels), readable(load, store, *b, levels)]
                        readable(load, store, *a, levels) && readable(
                            load,
                            store,
                            *b,
                            levels,
                        ) implies {
                        &&& *child_a == node_at(a.child(s), store)
                        &&& *child_b == node_at(b.child(s), store)
                        &&& readable(load, store, *child_a, (52 - (depth + 1)) as nat)
                        &&& readable(load, store, *child_b, (52 - (depth + 1)) as nat)
                    } by {
                        readable_child(load, store, *a, levels, s);
                        readable_child(load, store, *b, levels, s);
                    }
                    assert(readable(load, witness, *child_a, (52 - (depth + 1)) as nat));
                    assert(readable(load, witness, *child_b, (52 - (depth + 1)) as nat));
                }
                let below: Result<(), HamtTraversalError<E>> = diff_nodes(
                    &child_a,
                    &child_b,
                    added,
                    removed,
                    resolver,
                    depth + 1,
                );
                proof {
                    assert forall|store: spec_fn(StructuralHash) -> HamtNode<K, V>|
                        #![trigger readable(load, store, *a, levels), readable(load, store, *b, levels)]
                        readable(load, store, *a, levels) && readable(
                            load,
                            store,
                            *b,
                            levels,
                        ) implies diff_step::<K, V, F, E>(
                        *resolver,
                        *a,
                        *b,
                        store,
                        levels,
                        (slot + 1) as nat,
                        (removed_before, removed@),
                        (added_before, added@),
                        below,
                    ) by {
                        assert(readable(load, store, *child_a, (52 - (depth + 1)) as nat));
                        assert(readable(load, store, *child_b, (52 - (depth + 1)) as nat));
                        let (gone, new) = diff_upto(*a, *b, store, levels, slot as nat);
                        let (more_gone, more_new) = diff_upto(
                            *child_a,
                            *child_b,
                            store,
                            (levels - 1) as nat,
                            32,
                        );
                        match below {
                            Ok(_) => {
                                compared_more(load, store, *a, *b, levels, s);
                                if child_a.structural_hash@ != child_b.structural_hash@ {
                                    appended_more(
                                        removed_before,
                                        removed_middle,
                                        removed@,
                                        gone,
                                        more_gone,
                                    );
                                    appended_more(
                                        added_before,
                                        added_middle,
                                        added@,
                                        new,
                                        more_new,
                                    );
                                }
                            },
                            Err(HamtTraversalError::MaxDepthExceeded { .. }) => {
                                diff_deep_grows(*a, *b, store, levels, (slot + 1) as nat, 32);
                                compare_stops_below(
                                    load,
                                    store,
                                    *a,
                                    *b,
                                    levels,
                                    s,
                                    Stop::Depth,
                                );
                            },
                            Err(HamtTraversalError::Resolve(error)) => {
                                diff_fails_below::<K, V, F, E>(
                                    *resolver,
                                    *a,
                                    *b,
                                    store,
                                    levels,
                                    s,
                                    error,
                                );
                            },
                        }
                    }
                }
                match below {
                    Ok(_) => {},
                    Err(error) => {
                        return Err(error);
                    },
                }
            }
            index_a = index_a + 1;
            index_b = index_b + 1;
        } else if in_a || in_b {
            let one_ref: &NodeRef<K, V> = if in_a {
                &a.children[index_a]
            } else {
                &b.children[index_b]
            };
            let child: Arc<HamtNode<K, V>> = match resolve_node(one_ref, resolver) {
                Ok(node) => node,
                Err(error) => {
                    proof {
                        assert forall|store: spec_fn(StructuralHash) -> HamtNode<K, V>|
                            #![trigger readable(load, store, *a, levels), readable(load, store, *b, levels)]
                            readable(load, store, *a, levels) && readable(
                                load,
                                store,
                                *b,
                                levels,
                            ) implies diff_load_fails::<K, V, F, E>(
                            *resolver,
                            *a,
                            *b,
                            store,
                            levels,
                            error,
                        ) by {
                            diff_fails_at::<K, V, F, E>(
                                *resolver,
                                *a,
                                *b,
                                store,
                                levels,
                                s,
                                *one_ref,
                                error,
                            );
                        }
                    }
                    return Err(HamtTraversalError::Resolve(error));
                },
            };
            let loaded: &HamtNode<K, V> = &*child;
            let mut entries: Vec<(K, V)> = Vec::new();
            let below: Result<(), HamtTraversalError<E>> = collect_all_leaves(
                &child,
                &mut entries,
                resolver,
                depth + 1,
            );
            if below.is_ok() {
                proof {
                    let side = if in_a {
                        *a
                    } else {
                        *b
                    };
                    readable_child(load, witness, side, levels, s);
                    readable_loadable(load, witness, *loaded, (52 - (depth + 1)) as nat);
                    copies_encodable(
                        load,
                        witness,
                        *loaded,
                        (52 - (depth + 1)) as nat,
                        entries@,
                    );
                }
                if in_a {
                    let leaf: Option<&(K, V)> = leaf_at(b, slot);
                    settle_beside(&entries, leaf, removed, added);
                } else {
                    let leaf: Option<&(K, V)> = leaf_at(a, slot);
                    settle_beside(&entries, leaf, added, removed);
                }
            }
            proof {
                assert forall|store: spec_fn(StructuralHash) -> HamtNode<K, V>|
                    #![trigger readable(load, store, *a, levels), readable(load, store, *b, levels)]
                    readable(load, store, *a, levels) && readable(
                        load,
                        store,
                        *b,
                        levels,
                    ) implies diff_step::<K, V, F, E>(
                    *resolver,
                    *a,
                    *b,
                    store,
                    levels,
                    (slot + 1) as nat,
                    (removed_before, removed@),
                    (added_before, added@),
                    below,
                ) by {
                    let side = if in_a {
                        *a
                    } else {
                        *b
                    };
                    readable_child(load, store, side, levels, s);
                    assert(*child == node_at(side.child(s), store));
                    readable_loadable(load, store, *child, (52 - (depth + 1)) as nat);
                    let (gone, new) = diff_upto(*a, *b, store, levels, slot as nat);
                    let list = entry_list(*child, store, (levels - 1) as nat);
                    let leaf = slot_leaf(
                        if in_a {
                            *b
                        } else {
                            *a
                        },
                        s,
                    );
                    match below {
                        Ok(_) => {
                            compared_more(load, store, *a, *b, levels, s);
                            let (own, other) = if in_a {
                                (
                                    (removed_middle, removed@),
                                    (added_middle, added@),
                                )
                            } else {
                                (
                                    (added_middle, added@),
                                    (removed_middle, removed@),
                                )
                            };
                            settled_copies(entries@, list, leaf, own, other);
                            let (more, rest) = beside(list, leaf);
                            let (more_gone, more_new) = if in_a {
                                (more, rest)
                            } else {
                                (rest, more)
                            };
                            appended_more(
                                removed_before,
                                removed_middle,
                                removed@,
                                gone,
                                more_gone,
                            );
                            appended_more(added_before, added_middle, added@, new, more_new);
                        },
                        Err(HamtTraversalError::MaxDepthExceeded { .. }) => {
                            diff_deep_grows(*a, *b, store, levels, (slot + 1) as nat, 32);
                            let at = choose|at: int| #[trigger]
                                stops(
                                    load,
                                    store,
                                    *child,
                                    (levels - 1) as nat,
                                    Stop::Depth,
                                    at,
                                );
                            compare_stops_beside(
                                load,
                                store,
                                *a,
                                *b,
                                levels,
                                s,
                                side.child(s),
                                Stop::Depth,
                                at,
                            );
                        },
                        Err(HamtTraversalError::Resolve(error)) => {
                            diff_fails_beside::<K, V, F, E>(
                                *resolver,
                                *a,
                                *b,
                                store,
                                levels,
                                s,
                                side.child(s),
                                error,
                            );
                        },
                    }
                }
            }
            match below {
                Ok(_) => {},
                Err(error) => {
                    return Err(error);
                },
            }
            if in_a {
                index_a = index_a + 1;
            } else {
                index_b = index_b + 1;
            }
        }
        proof {
            assert forall|store: spec_fn(StructuralHash) -> HamtNode<K, V>|
                #![trigger readable(load, store, *a, levels), readable(load, store, *b, levels)]
                readable(load, store, *a, levels) && readable(
                    load,
                    store,
                    *b,
                    levels,
                ) implies compared_upto(load, store, *a, *b, levels, s + 1) by {
                if !(in_a || in_b) || (in_a && in_b && ref_hash(a.child(s)) == ref_hash(
                    b.child(s),
                )) {
                    compared_more(load, store, *a, *b, levels, s);
                }
            }
        }
        slot = slot + 1;
    }
    Ok(())
}

/// Some store agrees with what can be loaded below both nodes.
pub open spec fn both_readable<K: HamtCodec, V: HamtCodec>(
    load: spec_fn(StructuralHash, HamtNode<K, V>) -> bool,
    a: HamtNode<K, V>,
    b: HamtNode<K, V>,
    levels: nat,
) -> bool {
    exists|store: spec_fn(StructuralHash) -> HamtNode<K, V>|
        #![trigger readable(load, store, a, levels), readable(load, store, b, levels)]
        readable(load, store, a, levels) && readable(load, store, b, levels)
}

/// What comparing the first child slots of two nodes has come to.
spec fn diff_step<K: HamtCodec, V: HamtCodec, F, E>(
    resolver: F,
    a: HamtNode<K, V>,
    b: HamtNode<K, V>,
    store: spec_fn(StructuralHash) -> HamtNode<K, V>,
    levels: nat,
    n: nat,
    removed: (Seq<(K, V)>, Seq<(K, V)>),
    added: (Seq<(K, V)>, Seq<(K, V)>),
    result: Result<(), HamtTraversalError<E>>,
) -> bool where F: FnMut(&StructuralHash) -> Result<Arc<HamtNode<K, V>>, E> {
    match result {
        Ok(_) => {
            let (gone, new) = diff_upto(a, b, store, levels, n);
            &&& appended(removed.0, removed.1, gone)
            &&& appended(added.0, added.1, new)
            &&& compared_upto(loader::<K, V, E, F>(resolver), store, a, b, levels, n as int)
            &&& !diff_deep(a, b, store, levels, n)
        },
        Err(HamtTraversalError::Resolve(error)) => diff_load_fails::<K, V, F, E>(
            resolver,
            a,
            b,
            store,
            levels,
            error,
        ),
        Err(HamtTraversalError::MaxDepthExceeded { depth }) => depth == 52 && diff_too_deep(
            loader::<K, V, E, F>(resolver),
            store,
            a,
            b,
            levels,
        ),
    }
}

/// The lists are copies of what a comparison of two tries comes to: nothing
/// where their hashes are equal.
pub open spec fn delta_lists<K: HamtCodec, V: HamtCodec>(
    a: HamtNode<K, V>,
    b: HamtNode<K, V>,
    store: spec_fn(StructuralHash) -> HamtNode<K, V>,
    added: Seq<(K, V)>,
    removed: Seq<(K, V)>,
) -> bool {
    if a.structural_hash@ == b.structural_hash@ {
        added.len() == 0 && removed.len() == 0
    } else {
        let (gone, new) = diff_upto(a, b, store, 52, 32);
        &&& appended(Seq::empty(), removed, gone)
        &&& appended(Seq::empty(), added, new)
    }
}

/// What a comparison of two tries returns.
pub open spec fn delta_outcome<K: HamtCodec, V: HamtCodec, F, E>(
    resolver: F,
    a: HamtNode<K, V>,
    b: HamtNode<K, V>,
    result: DeltaResult<K, V, HamtTraversalError<E>>,
) -> bool where F: FnMut(&StructuralHash) -> Result<Arc<HamtNode<K, V>>, E> {
    let load = loader::<K, V, E, F>(resolver);
    forall|store: spec_fn(StructuralHash) -> HamtNode<K, V>|
        #![trigger readable(load, store, a, 52), readable(load, store, b, 52)]
        readable(load, store, a, 52) && readable(load, store, b, 52) ==> match result {
            Ok((added, removed)) => {
                &&& delta_lists(a, b, store, added@, removed@)
                &&& a.structural_hash@ != b.structural_hash@ ==> compared_upto(
                    load,
                    store,
                    a,
                    b,
                    52,
                    32,
                ) && !diff_deep(a, b, store, 52, 32)
            },
            Err(HamtTraversalError::Resolve(error)) => a.structural_hash@ != b.structural_hash@
                && diff_load_fails::<K, V, F, E>(resolver, a, b, store, 52, error),
            Err(HamtTraversalError::MaxDepthExceeded { depth }) => a.structural_hash@
                != b.structural_hash@ && depth == 52 && diff_too_deep(load, store, a, b, 52),
        }
}

/// Isolates the delta (added/removed items) between two root nodes directly,
/// short-circuiting on identical structural hashes without requiring lattices.
/// An entry that both hold is in neither list, wherever it stands in the two.
///
/// # Errors
/// Returns `HamtTraversalError::Resolve` if the `resolver` fails to resolve a
/// lazy node, or `HamtTraversalError::MaxDepthExceeded` if the diff recurses
/// past the deepest depth a legitimately built trie can have.
pub fn diff_hamt_nodes<K, V, F, E>(
    root_a: &Arc<HamtNode<K, V>>,
    root_b: &Arc<HamtNode<K, V>>,
    resolver: &mut F,
) -> (result: DeltaResult<K, V, HamtTraversalError<E>>) where
    K: HamtCodec + Clone,
    V: HamtCodec + Clone,
    F: FnMut(&StructuralHash) -> Result<Arc<HamtNode<K, V>>, E>,

    requires
        resolver_total::<K, V, E, F>(*old(resolver)),
        clone_keeps::<K>(),
        clone_keeps::<V>(),
        both_readable(loader::<K, V, E, F>(*old(resolver)), **root_a, **root_b, 52),
    ensures
        *final(resolver) == *old(resolver),
        delta_outcome::<K, V, F, E>(*old(resolver), **root_a, **root_b, result),
{
    let mut added: Vec<(K, V)> = Vec::new();
    let mut removed: Vec<(K, V)> = Vec::new();
    let ghost load = loader::<K, V, E, F>(*resolver);
    proof {
        assert(added@ =~= Seq::empty() && removed@ =~= Seq::empty());
        let store = choose|store: spec_fn(StructuralHash) -> HamtNode<K, V>|
            #![trigger readable(load, store, **root_a, 52), readable(load, store, **root_b, 52)]
            readable(load, store, **root_a, 52) && readable(load, store, **root_b, 52);
        assert(readable(load, store, **root_a, (52 - 0usize) as nat));
        assert(readable(load, store, **root_b, (52 - 0usize) as nat));
    }
    let result: Result<(), HamtTraversalError<E>> = diff_nodes(
        root_a,
        root_b,
        &mut added,
        &mut removed,
        resolver,
        0,
    );
    proof {
        assert forall|store: spec_fn(StructuralHash) -> HamtNode<K, V>|
            #![trigger readable(load, store, **root_a, 52), readable(load, store, **root_b, 52)]
            readable(load, store, **root_a, 52) && readable(
                load,
                store,
                **root_b,
                52,
            ) implies readable(load, store, **root_a, (52 - 0usize) as nat) && readable(
            load,
            store,
            **root_b,
            (52 - 0usize) as nat,
        ) by {}
    }
    match result {
        Ok(_) => Ok((added, removed)),
        Err(error) => Err(error),
    }
}

/// Isolates the delta (added/removed items) between two tries. The lattices
/// help to notice tries that are identical. An entry that both hold is in neither
/// list, wherever it stands in the two.
///
/// # Errors
/// Returns `HamtTraversalError::Resolve` if the `resolver` fails to resolve a
/// lazy node, or `HamtTraversalError::MaxDepthExceeded` if the diff recurses
/// past the deepest depth a legitimately built trie can have.
pub fn isolate_delta<K, V, F, E>(
    root_a: &Arc<HamtNode<K, V>>,
    lattice_a: &LtHash,
    root_b: &Arc<HamtNode<K, V>>,
    lattice_b: &LtHash,
    resolver: &mut F,
) -> (result: DeltaResult<K, V, HamtTraversalError<E>>) where
    K: HamtCodec + Clone,
    V: HamtCodec + Clone,
    F: FnMut(&StructuralHash) -> Result<Arc<HamtNode<K, V>>, E>,

    requires
        resolver_total::<K, V, E, F>(*old(resolver)),
        clone_keeps::<K>(),
        clone_keeps::<V>(),
        both_readable(loader::<K, V, E, F>(*old(resolver)), **root_a, **root_b, 52),
    ensures
        *final(resolver) == *old(resolver),
        delta_outcome::<K, V, F, E>(*old(resolver), **root_a, **root_b, result),
{
    // A lattice collision alone must not suppress a real structural diff.
    if lattice_a.same(lattice_b) && same_hash(&root_a.structural_hash, &root_b.structural_hash) {
        return Ok((Vec::new(), Vec::new()));
    }
    diff_hamt_nodes(root_a, root_b, resolver)
}

/// The node hashes that only one of two adjacent roots reaches.
#[derive(Clone, Debug, PartialEq, Eq)]
pub struct NodeHashDelta {
    /// Hashes reachable from the first root on paths that the second replaced.
    pub superseded_node_hashes: Vec<StructuralHash>,
    /// Hashes reachable from the second root on paths that the first lacks.
    pub new_node_hashes: Vec<StructuralHash>,
}

/// The hash of a node, followed by the hashes below its first children.
pub open spec fn hashes_upto<K, V>(
    node: HamtNode<K, V>,
    store: spec_fn(StructuralHash) -> HamtNode<K, V>,
    levels: nat,
    n: nat,
) -> Seq<StructuralHash>
    decreases levels, n,
{
    if levels == 0 {
        Seq::empty()
    } else if n == 0 {
        seq![node.structural_hash]
    } else {
        let child = node_at(node.children@[n - 1], store);
        hashes_upto(node, store, levels, (n - 1) as nat) + hashes_upto(
            child,
            store,
            (levels - 1) as nat,
            child.children@.len(),
        )
    }
}

/// The hashes of a node and of every node below it, each node before its
/// children.
pub open spec fn hash_list<K, V>(
    node: HamtNode<K, V>,
    store: spec_fn(StructuralHash) -> HamtNode<K, V>,
    levels: nat,
) -> Seq<StructuralHash> {
    hashes_upto(node, store, levels, node.children@.len())
}

/// Appends the structural hash of a node and of every internal node reachable
/// from it, in pre-order.
fn append_reachable_node_hashes<K, V, F, E>(
    node: &Arc<HamtNode<K, V>>,
    collection: &mut Vec<StructuralHash>,
    resolver: &mut F,
    depth: usize,
) -> (result: Result<(), HamtTraversalError<E>>) where
    F: FnMut(&StructuralHash) -> Result<Arc<HamtNode<K, V>>, E>,

    requires
        depth <= 52,
        resolver_total::<K, V, E, F>(*old(resolver)),
    ensures
        *final(resolver) == *old(resolver),
        forall|store: spec_fn(StructuralHash) -> HamtNode<K, V>| #[trigger]
            loadable(
                loader::<K, V, E, F>(*old(resolver)),
                store,
                **node,
                (52 - depth) as nat,
            ) ==> match result {
                Ok(_) => {
                    &&& final(collection)@ == old(collection)@ + hash_list(
                        **node,
                        store,
                        (52 - depth) as nat,
                    )
                    &&& all_loaded(
                        loader::<K, V, E, F>(*old(resolver)),
                        store,
                        **node,
                        (52 - depth) as nat,
                    )
                    &&& !too_deep(**node, store, (52 - depth) as nat)
                },
                Err(HamtTraversalError::Resolve(error)) => load_fails::<K, V, E, F>(
                    *old(resolver),
                    **node,
                    store,
                    (52 - depth) as nat,
                    error,
                ),
                Err(HamtTraversalError::MaxDepthExceeded { depth: at }) => at == 52
                    && gets_too_deep(
                    loader::<K, V, E, F>(*old(resolver)),
                    store,
                    **node,
                    (52 - depth) as nat,
                ),
            },
    decreases 52 - depth,
{
    let ghost before = collection@;
    let tree: &HamtNode<K, V> = &**node;
    collection.push(tree.structural_hash);
    if depth >= HAMT_MAX_DEPTH {
        proof {
            assert forall|store: spec_fn(StructuralHash) -> HamtNode<K, V>| #[trigger]
                loadable(loader::<K, V, E, F>(*resolver), store, *tree, 0) implies gets_too_deep(
                loader::<K, V, E, F>(*resolver),
                store,
                *tree,
                0,
            ) by {
                assert(stops(
                    loader::<K, V, E, F>(*resolver),
                    store,
                    *tree,
                    0,
                    Stop::Depth,
                    0,
                ));
            }
        }
        return Err(HamtTraversalError::MaxDepthExceeded { depth });
    }
    let ghost levels = (52 - depth) as nat;
    let ghost load = loader::<K, V, E, F>(*resolver);
    proof {
        assert(collection@ =~= before + seq![tree.structural_hash]);
    }
    let mut place: usize = 0;
    while place < tree.children.len()
        invariant
            place <= tree.children.len(),
            depth < 52,
            levels == 52 - depth,
            *tree == **node,
            before == old(collection)@,
            *resolver == *old(resolver),
            load == loader::<K, V, E, F>(*resolver),
            resolver_total::<K, V, E, F>(*resolver),
            forall|store: spec_fn(StructuralHash) -> HamtNode<K, V>| #[trigger]
                loadable(load, store, *tree, levels) ==> {
                    &&& collection@ == before + hashes_upto(*tree, store, levels, place as nat)
                    &&& loaded_upto(load, store, *tree, levels, place as nat)
                    &&& forall|i: int|
                        0 <= i < place ==> !too_deep(
                            node_at(#[trigger] tree.children@[i], store),
                            store,
                            (levels - 1) as nat,
                        )
                },
        decreases tree.children.len() - place,
    {
        let child_ref: &NodeRef<K, V> = &tree.children[place];
        let child: Arc<HamtNode<K, V>> = match resolve_node(child_ref, resolver) {
            Ok(node) => node,
            Err(error) => {
                proof {
                    assert forall|store: spec_fn(StructuralHash) -> HamtNode<K, V>| #[trigger]
                        loadable(load, store, *tree, levels) implies load_fails::<K, V, E, F>(
                        *resolver,
                        *tree,
                        store,
                        levels,
                        error,
                    ) by {
                        load_fails_at::<K, V, E, F>(
                            *resolver,
                            *tree,
                            store,
                            levels,
                            place as int,
                            error,
                        );
                    }
                }
                return Err(HamtTraversalError::Resolve(error));
            },
        };
        let below: Result<(), HamtTraversalError<E>> = append_reachable_node_hashes(
            &child,
            collection,
            resolver,
            depth + 1,
        );
        proof {
            assert forall|store: spec_fn(StructuralHash) -> HamtNode<K, V>| #[trigger]
                loadable(load, store, *tree, levels) implies match below {
                Ok(_) => {
                    &&& collection@ == before + hashes_upto(
                        *tree,
                        store,
                        levels,
                        (place + 1) as nat,
                    )
                    &&& loaded_upto(load, store, *tree, levels, (place + 1) as nat)
                    &&& !too_deep(
                        node_at(tree.children@[place as int], store),
                        store,
                        (levels - 1) as nat,
                    )
                },
                Err(HamtTraversalError::Resolve(error)) => load_fails::<K, V, E, F>(
                    *resolver,
                    *tree,
                    store,
                    levels,
                    error,
                ),
                Err(HamtTraversalError::MaxDepthExceeded { depth: at }) => at == 52
                    && gets_too_deep(load, store, *tree, levels),
            } by {
                assert(tree.children@[place as int] == *child_ref);
                assert(*child == node_at(tree.children@[place as int], store));
                assert(loadable(load, store, *child, (52 - (depth + 1)) as nat));
                if below is Err && below->Err_0 is MaxDepthExceeded {
                    too_deep_below(load, store, *tree, levels, place as int);
                }
                if below is Err && below->Err_0 is Resolve {
                    load_fails_below::<K, V, E, F>(
                        *resolver,
                        *tree,
                        store,
                        levels,
                        place as int,
                        below->Err_0->Resolve_0,
                    );
                }
                if below is Ok {
                    assert(collection@ =~= before + hashes_upto(
                        *tree,
                        store,
                        levels,
                        (place + 1) as nat,
                    ));
                }
            }
        }
        match below {
            Ok(_) => {},
            Err(error) => {
                return Err(error);
            },
        }
        place = place + 1;
    }
    Ok(())
}

/// Collects the structural hash of `root` and every internal node reachable
/// from it via `nodemap` children.
///
/// This is the bootstrap and verification primitive for garbage collection by
/// reference counts: a storage backend can sum this over every currently live
/// root to compute absolute per-hash reference counts.
///
/// # Errors
/// Returns `HamtTraversalError::Resolve` if `resolver` fails, or
/// `HamtTraversalError::MaxDepthExceeded` if the walk recurses past the deepest
/// depth a legitimately built trie can have.
pub fn reachable_node_hashes<K, V, F, E>(root: &Arc<HamtNode<K, V>>, resolver: &mut F) -> (result:
    Result<Vec<StructuralHash>, HamtTraversalError<E>>) where
    F: FnMut(&StructuralHash) -> Result<Arc<HamtNode<K, V>>, E>,

    requires
        resolver_total::<K, V, E, F>(*old(resolver)),
    ensures
        *final(resolver) == *old(resolver),
        forall|store: spec_fn(StructuralHash) -> HamtNode<K, V>| #[trigger]
            loadable(loader::<K, V, E, F>(*old(resolver)), store, **root, 52) ==> match result {
                Ok(hashes) => {
                    &&& hashes@ == hash_list(**root, store, 52)
                    &&& all_loaded(loader::<K, V, E, F>(*old(resolver)), store, **root, 52)
                    &&& !too_deep(**root, store, 52)
                },
                Err(HamtTraversalError::Resolve(error)) => load_fails::<K, V, E, F>(
                    *old(resolver),
                    **root,
                    store,
                    52,
                    error,
                ),
                Err(HamtTraversalError::MaxDepthExceeded { depth }) => depth == 52
                    && gets_too_deep(
                    loader::<K, V, E, F>(*old(resolver)),
                    store,
                    **root,
                    52,
                ),
            },
{
    let mut hashes: Vec<StructuralHash> = Vec::new();
    let ghost load = loader::<K, V, E, F>(*resolver);
    let result: Result<(), HamtTraversalError<E>> = append_reachable_node_hashes(
        root,
        &mut hashes,
        resolver,
        0,
    );
    proof {
        assert forall|store: spec_fn(StructuralHash) -> HamtNode<K, V>| #[trigger]
            loadable(load, store, **root, 52) implies loadable(
            load,
            store,
            **root,
            (52 - 0usize) as nat,
        ) && (result is Ok ==> hashes@ == hash_list(**root, store, 52)) by {
            assert(loadable(load, store, **root, (52 - 0usize) as nat));
            if result is Ok {
                assert(hashes@ =~= hash_list(**root, store, 52));
            }
        }
    }
    match result {
        Ok(_) => Ok(hashes),
        Err(error) => Err(error),
    }
}

/// The superseded and the new node hashes of two nodes and of what is below
/// their first child slots. Subtrees with equal hashes count as equal.
pub open spec fn hash_diff_upto<K: HamtCodec, V: HamtCodec>(
    a: HamtNode<K, V>,
    b: HamtNode<K, V>,
    store: spec_fn(StructuralHash) -> HamtNode<K, V>,
    levels: nat,
    n: nat,
) -> (Seq<StructuralHash>, Seq<StructuralHash>)
    decreases levels, n,
{
    if levels == 0 {
        (Seq::empty(), Seq::empty())
    } else if n == 0 {
        (seq![a.structural_hash], seq![b.structural_hash])
    } else {
        let (gone, new) = hash_diff_upto(a, b, store, levels, (n - 1) as nat);
        let slot = n - 1;
        let in_a = slot_set(a.nodemap, slot);
        let in_b = slot_set(b.nodemap, slot);
        let below = (levels - 1) as nat;
        let ca = node_at(a.child(slot), store);
        let cb = node_at(b.child(slot), store);
        if in_a && in_b {
            if ref_hash(a.child(slot)) == ref_hash(b.child(slot)) || ca.structural_hash@
                == cb.structural_hash@ {
                (gone, new)
            } else {
                let (more_gone, more_new) = hash_diff_upto(ca, cb, store, below, 32);
                (gone + more_gone, new + more_new)
            }
        } else if in_a {
            (gone + hash_list(ca, store, below), new)
        } else if in_b {
            (gone, new + hash_list(cb, store, below))
        } else {
            (gone, new)
        }
    }
}

/// What comparing the node hashes below two nodes adds to the two lists.
pub open spec fn hash_diff_outcome<K: HamtCodec, V: HamtCodec, F, E>(
    resolver: F,
    a: HamtNode<K, V>,
    b: HamtNode<K, V>,
    levels: nat,
    superseded: (Seq<StructuralHash>, Seq<StructuralHash>),
    new: (Seq<StructuralHash>, Seq<StructuralHash>),
    result: Result<(), HamtTraversalError<E>>,
) -> bool where F: FnMut(&StructuralHash) -> Result<Arc<HamtNode<K, V>>, E> {
    let load = loader::<K, V, E, F>(resolver);
    forall|store: spec_fn(StructuralHash) -> HamtNode<K, V>|
        #![trigger readable(load, store, a, levels), readable(load, store, b, levels)]
        readable(load, store, a, levels) && readable(load, store, b, levels) ==> match result {
            Ok(_) => if a.structural_hash@ == b.structural_hash@ {
                superseded.1 == superseded.0 && new.1 == new.0
            } else {
                let (gone, fresh) = hash_diff_upto(a, b, store, levels, 32);
                &&& superseded.1 == superseded.0 + gone
                &&& new.1 == new.0 + fresh
                &&& compared_upto(load, store, a, b, levels, 32)
                &&& !diff_deep(a, b, store, levels, 32)
            },
            Err(HamtTraversalError::Resolve(error)) => a.structural_hash@ != b.structural_hash@
                && diff_load_fails::<K, V, F, E>(resolver, a, b, store, levels, error),
            Err(HamtTraversalError::MaxDepthExceeded { depth }) => a.structural_hash@
                != b.structural_hash@ && depth == 52 && diff_too_deep(load, store, a, b, levels),
        }
}

/// What comparing the first child slots of two nodes has come to.
spec fn hash_step<K: HamtCodec, V: HamtCodec, F, E>(
    resolver: F,
    a: HamtNode<K, V>,
    b: HamtNode<K, V>,
    store: spec_fn(StructuralHash) -> HamtNode<K, V>,
    levels: nat,
    n: nat,
    superseded: (Seq<StructuralHash>, Seq<StructuralHash>),
    new: (Seq<StructuralHash>, Seq<StructuralHash>),
    result: Result<(), HamtTraversalError<E>>,
) -> bool where F: FnMut(&StructuralHash) -> Result<Arc<HamtNode<K, V>>, E> {
    match result {
        Ok(_) => {
            let (gone, fresh) = hash_diff_upto(a, b, store, levels, n);
            &&& superseded.1 == superseded.0 + gone
            &&& new.1 == new.0 + fresh
            &&& compared_upto(loader::<K, V, E, F>(resolver), store, a, b, levels, n as int)
            &&& !diff_deep(a, b, store, levels, n)
        },
        Err(HamtTraversalError::Resolve(error)) => diff_load_fails::<K, V, F, E>(
            resolver,
            a,
            b,
            store,
            levels,
            error,
        ),
        Err(HamtTraversalError::MaxDepthExceeded { depth }) => depth == 52 && diff_too_deep(
            loader::<K, V, E, F>(resolver),
            store,
            a,
            b,
            levels,
        ),
    }
}

/// Lists the node hashes in which two nodes at a depth differ.
fn diff_node_hashes_rec<K, V, F, E>(
    node_a: &Arc<HamtNode<K, V>>,
    node_b: &Arc<HamtNode<K, V>>,
    superseded: &mut Vec<StructuralHash>,
    new: &mut Vec<StructuralHash>,
    resolver: &mut F,
    depth: usize,
) -> (result: Result<(), HamtTraversalError<E>>) where
    K: HamtCodec,
    V: HamtCodec,
    F: FnMut(&StructuralHash) -> Result<Arc<HamtNode<K, V>>, E>,

    requires
        depth <= 52,
        resolver_total::<K, V, E, F>(*old(resolver)),
        both_readable(loader::<K, V, E, F>(*old(resolver)), **node_a, **node_b, (52 - depth) as nat),
    ensures
        *final(resolver) == *old(resolver),
        hash_diff_outcome::<K, V, F, E>(
            *old(resolver),
            **node_a,
            **node_b,
            (52 - depth) as nat,
            (old(superseded)@, final(superseded)@),
            (old(new)@, final(new)@),
            result,
        ),
    decreases 52 - depth,
{
    if same_hash(&node_a.structural_hash, &node_b.structural_hash) {
        return Ok(());
    }
    let a: &HamtNode<K, V> = &**node_a;
    let b: &HamtNode<K, V> = &**node_b;
    if depth >= HAMT_MAX_DEPTH {
        return Err(HamtTraversalError::MaxDepthExceeded { depth });
    }
    let ghost levels = (52 - depth) as nat;
    let ghost load = loader::<K, V, E, F>(*resolver);
    let ghost superseded_before = superseded@;
    let ghost new_before = new@;
    let ghost witness = choose|store: spec_fn(StructuralHash) -> HamtNode<K, V>|
        #![trigger readable(load, store, *a, levels), readable(load, store, *b, levels)]
        readable(load, store, *a, levels) && readable(load, store, *b, levels);
    proof {
        assert(readable(load, witness, *a, levels) && readable(load, witness, *b, levels));
    }
    superseded.push(a.structural_hash);
    new.push(b.structural_hash);
    proof {
        assert(superseded@ =~= superseded_before + seq![a.structural_hash]);
        assert(new@ =~= new_before + seq![b.structural_hash]);
    }
    let mut index_a: usize = 0;
    let mut index_b: usize = 0;
    let mut slot: usize = 0;
    while slot < 32
        invariant
            slot <= 32,
            depth < 52,
            levels == 52 - depth,
            *a == **node_a,
            *b == **node_b,
            a.shape(),
            b.shape(),
            a.structural_hash@ != b.structural_hash@,
            superseded_before == old(superseded)@,
            new_before == old(new)@,
            *resolver == *old(resolver),
            load == loader::<K, V, E, F>(*resolver),
            resolver_total::<K, V, E, F>(*resolver),
            readable(load, witness, *a, levels),
            readable(load, witness, *b, levels),
            index_a <= slot,
            index_b <= slot,
            index_a == rank(a.nodemap, slot as int),
            index_b == rank(b.nodemap, slot as int),
            forall|store: spec_fn(StructuralHash) -> HamtNode<K, V>|
                #![trigger readable(load, store, *a, levels), readable(load, store, *b, levels)]
                readable(load, store, *a, levels) && readable(load, store, *b, levels) ==> {
                    let (gone, fresh) = hash_diff_upto(*a, *b, store, levels, slot as nat);
                    &&& superseded@ == superseded_before + gone
                    &&& new@ == new_before + fresh
                    &&& compared_upto(load, store, *a, *b, levels, slot as int)
                    &&& !diff_deep(*a, *b, store, levels, slot as nat)
                },
        decreases 32 - slot,
    {
        let in_a: bool = has_slot(a.nodemap, slot);
        let in_b: bool = has_slot(b.nodemap, slot);
        let ghost s = slot as int;
        proof {
            rank_monotone(a.nodemap, slot + 1, 32);
            rank_monotone(b.nodemap, slot + 1, 32);
        }
        if in_a && in_b {
            let ref_a: &NodeRef<K, V> = &a.children[index_a];
            let ref_b: &NodeRef<K, V> = &b.children[index_b];
            let hash_a: StructuralHash = ref_a.structural_hash();
            let hash_b: StructuralHash = ref_b.structural_hash();
            if !same_hash(&hash_a, &hash_b) {
                let child_a: Arc<HamtNode<K, V>> = match resolve_node(ref_a, resolver) {
                    Ok(node) => node,
                    Err(error) => {
                        proof {
                            assert forall|store: spec_fn(StructuralHash) -> HamtNode<K, V>|
                                #![trigger readable(load, store, *a, levels), readable(load, store, *b, levels)]
                                readable(load, store, *a, levels) && readable(
                                    load,
                                    store,
                                    *b,
                                    levels,
                                ) implies diff_load_fails::<K, V, F, E>(
                                *resolver,
                                *a,
                                *b,
                                store,
                                levels,
                                error,
                            ) by {
                                diff_fails_at::<K, V, F, E>(
                                    *resolver,
                                    *a,
                                    *b,
                                    store,
                                    levels,
                                    s,
                                    *ref_a,
                                    error,
                                );
                            }
                        }
                        return Err(HamtTraversalError::Resolve(error));
                    },
                };
                let child_b: Arc<HamtNode<K, V>> = match resolve_node(ref_b, resolver) {
                    Ok(node) => node,
                    Err(error) => {
                        proof {
                            assert forall|store: spec_fn(StructuralHash) -> HamtNode<K, V>|
                                #![trigger readable(load, store, *a, levels), readable(load, store, *b, levels)]
                                readable(load, store, *a, levels) && readable(
                                    load,
                                    store,
                                    *b,
                                    levels,
                                ) implies diff_load_fails::<K, V, F, E>(
                                *resolver,
                                *a,
                                *b,
                                store,
                                levels,
                                error,
                            ) by {
                                diff_fails_at::<K, V, F, E>(
                                    *resolver,
                                    *a,
                                    *b,
                                    store,
                                    levels,
                                    s,
                                    *ref_b,
                                    error,
                                );
                            }
                        }
                        return Err(HamtTraversalError::Resolve(error));
                    },
                };
                proof {
                    assert forall|store: spec_fn(StructuralHash) -> HamtNode<K, V>|
                        #![trigger readable(load, store, *a, levels), readable(load, store, *b, levels)]
                        readable(load, store, *a, levels) && readable(
                            load,
                            store,
                            *b,
                            levels,
                        ) implies {
                        &&& *child_a == node_at(a.child(s), store)
                        &&& *child_b == node_at(b.child(s), store)
                        &&& readable(load, store, *child_a, (52 - (depth + 1)) as nat)
                        &&& readable(load, store, *child_b, (52 - (depth + 1)) as nat)
                    } by {
                        readable_child(load, store, *a, levels, s);
                        readable_child(load, store, *b, levels, s);
                    }
                    assert(readable(load, witness, *child_a, (52 - (depth + 1)) as nat));
                    assert(readable(load, witness, *child_b, (52 - (depth + 1)) as nat));
                }
                let below: Result<(), HamtTraversalError<E>> = diff_node_hashes_rec(
                    &child_a,
                    &child_b,
                    superseded,
                    new,
                    resolver,
                    depth + 1,
                );
                proof {
                    assert forall|store: spec_fn(StructuralHash) -> HamtNode<K, V>|
                        #![trigger readable(load, store, *a, levels), readable(load, store, *b, levels)]
                        readable(load, store, *a, levels) && readable(
                            load,
                            store,
                            *b,
                            levels,
                        ) implies hash_step::<K, V, F, E>(
                        *resolver,
                        *a,
                        *b,
                        store,
                        levels,
                        (slot + 1) as nat,
                        (superseded_before, superseded@),
                        (new_before, new@),
                        below,
                    ) by {
                        assert(readable(load, store, *child_a, (52 - (depth + 1)) as nat));
                        assert(readable(load, store, *child_b, (52 - (depth + 1)) as nat));
                        let (gone, fresh) = hash_diff_upto(
                            *a,
                            *b,
                            store,
                            levels,
                            (slot + 1) as nat,
                        );
                        match below {
                            Ok(_) => {
                                compared_more(load, store, *a, *b, levels, s);
                                assert(superseded@ =~= superseded_before + gone);
                                assert(new@ =~= new_before + fresh);
                            },
                            Err(HamtTraversalError::MaxDepthExceeded { .. }) => {
                                diff_deep_grows(*a, *b, store, levels, (slot + 1) as nat, 32);
                                compare_stops_below(
                                    load,
                                    store,
                                    *a,
                                    *b,
                                    levels,
                                    s,
                                    Stop::Depth,
                                );
                            },
                            Err(HamtTraversalError::Resolve(error)) => {
                                diff_fails_below::<K, V, F, E>(
                                    *resolver,
                                    *a,
                                    *b,
                                    store,
                                    levels,
                                    s,
                                    error,
                                );
                            },
                        }
                    }
                }
                match below {
                    Ok(_) => {},
                    Err(error) => {
                        return Err(error);
                    },
                }
            }
            index_a = index_a + 1;
            index_b = index_b + 1;
        } else if in_a || in_b {
            let one_ref: &NodeRef<K, V> = if in_a {
                &a.children[index_a]
            } else {
                &b.children[index_b]
            };
            let child: Arc<HamtNode<K, V>> = match resolve_node(one_ref, resolver) {
                Ok(node) => node,
                Err(error) => {
                    proof {
                        assert forall|store: spec_fn(StructuralHash) -> HamtNode<K, V>|
                            #![trigger readable(load, store, *a, levels), readable(load, store, *b, levels)]
                            readable(load, store, *a, levels) && readable(
                                load,
                                store,
                                *b,
                                levels,
                            ) implies diff_load_fails::<K, V, F, E>(
                            *resolver,
                            *a,
                            *b,
                            store,
                            levels,
                            error,
                        ) by {
                            diff_fails_at::<K, V, F, E>(
                                *resolver,
                                *a,
                                *b,
                                store,
                                levels,
                                s,
                                *one_ref,
                                error,
                            );
                        }
                    }
                    return Err(HamtTraversalError::Resolve(error));
                },
            };
            let below: Result<(), HamtTraversalError<E>> = if in_a {
                append_reachable_node_hashes(&child, superseded, resolver, depth + 1)
            } else {
                append_reachable_node_hashes(&child, new, resolver, depth + 1)
            };
            proof {
                assert forall|store: spec_fn(StructuralHash) -> HamtNode<K, V>|
                    #![trigger readable(load, store, *a, levels), readable(load, store, *b, levels)]
                    readable(load, store, *a, levels) && readable(
                        load,
                        store,
                        *b,
                        levels,
                    ) implies hash_step::<K, V, F, E>(
                    *resolver,
                    *a,
                    *b,
                    store,
                    levels,
                    (slot + 1) as nat,
                    (superseded_before, superseded@),
                    (new_before, new@),
                    below,
                ) by {
                    let side = if in_a {
                        *a
                    } else {
                        *b
                    };
                    readable_child(load, store, side, levels, s);
                    assert(*child == node_at(side.child(s), store));
                    readable_loadable(load, store, *child, (52 - (depth + 1)) as nat);
                    let (gone, fresh) = hash_diff_upto(*a, *b, store, levels, (slot + 1) as nat);
                    match below {
                        Ok(_) => {
                            compared_more(load, store, *a, *b, levels, s);
                            assert(superseded@ =~= superseded_before + gone);
                            assert(new@ =~= new_before + fresh);
                        },
                        Err(HamtTraversalError::MaxDepthExceeded { .. }) => {
                            diff_deep_grows(*a, *b, store, levels, (slot + 1) as nat, 32);
                            let at = choose|at: int| #[trigger]
                                stops(
                                    load,
                                    store,
                                    *child,
                                    (levels - 1) as nat,
                                    Stop::Depth,
                                    at,
                                );
                            compare_stops_beside(
                                load,
                                store,
                                *a,
                                *b,
                                levels,
                                s,
                                side.child(s),
                                Stop::Depth,
                                at,
                            );
                        },
                        Err(HamtTraversalError::Resolve(error)) => {
                            diff_fails_beside::<K, V, F, E>(
                                *resolver,
                                *a,
                                *b,
                                store,
                                levels,
                                s,
                                side.child(s),
                                error,
                            );
                        },
                    }
                }
            }
            match below {
                Ok(_) => {},
                Err(error) => {
                    return Err(error);
                },
            }
            if in_a {
                index_a = index_a + 1;
            } else {
                index_b = index_b + 1;
            }
        }
        proof {
            assert forall|store: spec_fn(StructuralHash) -> HamtNode<K, V>|
                #![trigger readable(load, store, *a, levels), readable(load, store, *b, levels)]
                readable(load, store, *a, levels) && readable(
                    load,
                    store,
                    *b,
                    levels,
                ) implies compared_upto(load, store, *a, *b, levels, s + 1) by {
                if !(in_a || in_b) || (in_a && in_b && ref_hash(a.child(s)) == ref_hash(
                    b.child(s),
                )) {
                    compared_more(load, store, *a, *b, levels, s);
                }
            }
        }
        slot = slot + 1;
    }
    Ok(())
}

/// The difference of the node hashes of two roots: nothing where their hashes
/// are equal.
pub open spec fn node_delta_lists<K: HamtCodec, V: HamtCodec>(
    a: HamtNode<K, V>,
    b: HamtNode<K, V>,
    store: spec_fn(StructuralHash) -> HamtNode<K, V>,
    delta: NodeHashDelta,
) -> bool {
    if a.structural_hash@ == b.structural_hash@ {
        delta.superseded_node_hashes@.len() == 0 && delta.new_node_hashes@.len() == 0
    } else {
        let (gone, fresh) = hash_diff_upto(a, b, store, 52, 32);
        delta.superseded_node_hashes@ == gone && delta.new_node_hashes@ == fresh
    }
}

/// What comparing the node hashes of two roots returns.
pub open spec fn node_delta_outcome<K: HamtCodec, V: HamtCodec, F, E>(
    resolver: F,
    a: HamtNode<K, V>,
    b: HamtNode<K, V>,
    result: Result<NodeHashDelta, HamtTraversalError<E>>,
) -> bool where F: FnMut(&StructuralHash) -> Result<Arc<HamtNode<K, V>>, E> {
    let load = loader::<K, V, E, F>(resolver);
    forall|store: spec_fn(StructuralHash) -> HamtNode<K, V>|
        #![trigger readable(load, store, a, 52), readable(load, store, b, 52)]
        readable(load, store, a, 52) && readable(load, store, b, 52) ==> match result {
            Ok(delta) => {
                &&& node_delta_lists(a, b, store, delta)
                &&& a.structural_hash@ != b.structural_hash@ ==> {
                    &&& compared_upto(load, store, a, b, 52, 32)
                    &&& !diff_deep(a, b, store, 52, 32)
                }
            },
            Err(HamtTraversalError::Resolve(error)) => a.structural_hash@ != b.structural_hash@
                && diff_load_fails::<K, V, F, E>(resolver, a, b, store, 52, error),
            Err(HamtTraversalError::MaxDepthExceeded { depth }) => a.structural_hash@
                != b.structural_hash@ && depth == 52 && diff_too_deep(load, store, a, b, 52),
        }
}

/// Computes the node hashes that were superseded and created between two
/// roots, for reference-counting storage backends. Shared subtrees are skipped
/// without being loaded.
///
/// # Errors
/// Returns `HamtTraversalError::Resolve` if `resolver` fails, or
/// `HamtTraversalError::MaxDepthExceeded` if the walk recurses past the deepest
/// depth a legitimately built trie can have.
pub fn diff_node_hashes<K, V, F, E>(
    root_a: &Arc<HamtNode<K, V>>,
    root_b: &Arc<HamtNode<K, V>>,
    resolver: &mut F,
) -> (result: Result<NodeHashDelta, HamtTraversalError<E>>) where
    K: HamtCodec,
    V: HamtCodec,
    F: FnMut(&StructuralHash) -> Result<Arc<HamtNode<K, V>>, E>,

    requires
        resolver_total::<K, V, E, F>(*old(resolver)),
        both_readable(loader::<K, V, E, F>(*old(resolver)), **root_a, **root_b, 52),
    ensures
        *final(resolver) == *old(resolver),
        node_delta_outcome::<K, V, F, E>(*old(resolver), **root_a, **root_b, result),
{
    let mut superseded_node_hashes: Vec<StructuralHash> = Vec::new();
    let mut new_node_hashes: Vec<StructuralHash> = Vec::new();
    let ghost load = loader::<K, V, E, F>(*resolver);
    proof {
        let store = choose|store: spec_fn(StructuralHash) -> HamtNode<K, V>|
            #![trigger readable(load, store, **root_a, 52), readable(load, store, **root_b, 52)]
            readable(load, store, **root_a, 52) && readable(load, store, **root_b, 52);
        assert(readable(load, store, **root_a, (52 - 0usize) as nat));
        assert(readable(load, store, **root_b, (52 - 0usize) as nat));
    }
    let result: Result<(), HamtTraversalError<E>> = diff_node_hashes_rec(
        root_a,
        root_b,
        &mut superseded_node_hashes,
        &mut new_node_hashes,
        resolver,
        0,
    );
    proof {
        assert forall|store: spec_fn(StructuralHash) -> HamtNode<K, V>|
            #![trigger readable(load, store, **root_a, 52), readable(load, store, **root_b, 52)]
            readable(load, store, **root_a, 52) && readable(
                load,
                store,
                **root_b,
                52,
            ) implies readable(load, store, **root_a, (52 - 0usize) as nat) && readable(
            load,
            store,
            **root_b,
            (52 - 0usize) as nat,
        ) by {}
        assert forall|x: Seq<StructuralHash>| #[trigger]
            (Seq::<StructuralHash>::empty() + x) == x by {
            assert(Seq::<StructuralHash>::empty() + x =~= x);
        }
    }
    match result {
        Ok(_) => Ok(NodeHashDelta { superseded_node_hashes, new_node_hashes }),
        Err(error) => Err(error),
    }
}

} // verus!
