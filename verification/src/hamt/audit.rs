//! Which of the persisted nodes the live roots still reach.

use std::sync::Arc;
use vstd::prelude::*;
use vstd::string::StringExecFns;
use crate::bitmaps::{bitmap_insert, bitmap_new, bitmap_set};
use crate::text::{decimal, push_decimal};
use super::hash::StructuralHash;
use super::node::{
    hash_views, loader, node_at, ref_hash, ref_hashes, resolver_total, HamtNode, NodeRef,
    HAMT_MAX_DEPTH,
};
use super::table::HashTable;
use super::sweep::{root_swept, swept, swept_next, swept_to, swept_to_next, Marked};
use super::walk::{loadable, resolve_node, too_deep, HamtTraversalError, Stop};

verus! {

/// The graph says which hashes the node with a hash, and every node below it,
/// refer to.
pub open spec fn pictured<K, V>(
    graph: spec_fn(Seq<u8>) -> Seq<Seq<u8>>,
    hash: Seq<u8>,
    node: HamtNode<K, V>,
    store: spec_fn(StructuralHash) -> HamtNode<K, V>,
    levels: nat,
) -> bool
    decreases levels,
{
    levels > 0 ==> {
        &&& graph(hash) == ref_hashes(node.children@)
        &&& forall|i: int|
            0 <= i < node.children@.len() ==> pictured(
                graph,
                ref_hash(#[trigger] node.children@[i]),
                node_at(node.children@[i], store),
                store,
                (levels - 1) as nat,
            )
    }
}

/// A path in the graph.
pub open spec fn is_descent(
    graph: spec_fn(Seq<u8>) -> Seq<Seq<u8>>,
    path: Seq<Seq<u8>>,
) -> bool {
    path.len() > 0 && forall|i: int|
        0 <= i < path.len() - 1 ==> graph(#[trigger] path[i]).contains(path[i + 1])
}

/// A hash leads to another.
pub open spec fn descends_to(
    graph: spec_fn(Seq<u8>) -> Seq<Seq<u8>>,
    a: Seq<u8>,
    b: Seq<u8>,
) -> bool {
    exists|path: Seq<Seq<u8>>| #[trigger]
        is_descent(graph, path) && path[0] == a && path.last() == b
}

proof fn descends_nowhere(graph: spec_fn(Seq<u8>) -> Seq<Seq<u8>>, a: Seq<u8>)
    ensures
        descends_to(graph, a, a),
{
    let path = seq![a];
    assert(is_descent(graph, path) && path[0] == a && path.last() == a);
}

proof fn descends_through(
    graph: spec_fn(Seq<u8>) -> Seq<Seq<u8>>,
    a: Seq<u8>,
    b: Seq<u8>,
    c: Seq<u8>,
)
    requires
        graph(a).contains(b),
        descends_to(graph, b, c),
    ensures
        descends_to(graph, a, c),
{
    let path = choose|path: Seq<Seq<u8>>| #[trigger]
        is_descent(graph, path) && path[0] == b && path.last() == c;
    let longer = seq![a] + path;
    assert forall|i: int| 0 <= i < longer.len() - 1 implies graph(#[trigger] longer[i]).contains(
        longer[i + 1],
    ) by {
        if i > 0 {
            assert(longer[i] == path[i - 1] && longer[i + 1] == path[i]);
        }
    }
    assert(is_descent(graph, longer) && longer[0] == a && longer.last() == c);
}

/// Everything that a hash refers to is in the set.
pub open spec fn refers_into(
    graph: spec_fn(Seq<u8>) -> Seq<Seq<u8>>,
    hash: Seq<u8>,
    seen: Set<Seq<u8>>,
) -> bool {
    forall|i: int| 0 <= i < graph(hash).len() ==> seen.contains(#[trigger] graph(hash)[i])
}

/// What marking the nodes below a hash does to the set of seen hashes.
pub open spec fn marked_below(
    graph: spec_fn(Seq<u8>) -> Seq<Seq<u8>>,
    hash: Seq<u8>,
    before: Set<Seq<u8>>,
    after: Set<Seq<u8>>,
) -> bool {
    &&& before.subset_of(after)
    &&& forall|h: Seq<u8>| #[trigger]
        after.contains(h) && !before.contains(h) ==> descends_to(graph, hash, h)
    &&& forall|h: Seq<u8>| #[trigger]
        after.contains(h) && !(before.contains(h) && h != hash) ==> refers_into(graph, h, after)
}

/// As [`marked_below`], for the first children of a node.
spec fn marked_upto(
    graph: spec_fn(Seq<u8>) -> Seq<Seq<u8>>,
    hash: Seq<u8>,
    n: nat,
    before: Set<Seq<u8>>,
    after: Set<Seq<u8>>,
) -> bool {
    &&& before.subset_of(after)
    &&& forall|h: Seq<u8>| #[trigger]
        after.contains(h) && !before.contains(h) ==> descends_to(graph, hash, h)
    &&& forall|h: Seq<u8>| #[trigger]
        after.contains(h) && !before.contains(h) && h != hash ==> refers_into(graph, h, after)
    &&& forall|i: int| 0 <= i < n ==> after.contains(#[trigger] graph(hash)[i])
}

/// A child that was seen before changes nothing.
proof fn marked_seen(
    graph: spec_fn(Seq<u8>) -> Seq<Seq<u8>>,
    hash: Seq<u8>,
    n: nat,
    before: Set<Seq<u8>>,
    after: Set<Seq<u8>>,
)
    requires
        n < graph(hash).len(),
        marked_upto(graph, hash, n, before, after),
        after.contains(graph(hash)[n as int]),
    ensures
        marked_upto(graph, hash, n + 1, before, after),
{
}

/// A child that is new is marked along with what is below it.
proof fn marked_next(
    graph: spec_fn(Seq<u8>) -> Seq<Seq<u8>>,
    hash: Seq<u8>,
    n: nat,
    before: Set<Seq<u8>>,
    middle: Set<Seq<u8>>,
    after: Set<Seq<u8>>,
)
    requires
        n < graph(hash).len(),
        marked_upto(graph, hash, n, before, middle),
        !middle.contains(graph(hash)[n as int]),
        marked_below(graph, graph(hash)[n as int], middle.insert(graph(hash)[n as int]), after),
    ensures
        marked_upto(graph, hash, n + 1, before, after),
{
    let child = graph(hash)[n as int];
    assert(graph(hash).contains(child));
    assert(middle.insert(child).contains(child));
    assert forall|h: Seq<u8>| #[trigger] before.contains(h) implies after.contains(h) by {
        assert(middle.contains(h));
        assert(middle.insert(child).contains(h));
    }
    assert forall|h: Seq<u8>| #[trigger]
        after.contains(h) && !before.contains(h) implies descends_to(graph, hash, h) by {
        if middle.contains(h) {
        } else if h == child {
            descends_nowhere(graph, child);
            descends_through(graph, hash, child, child);
        } else {
            assert(!middle.insert(child).contains(h));
            descends_through(graph, hash, child, h);
        }
    }
    assert forall|h: Seq<u8>| #[trigger]
        after.contains(h) && !before.contains(h) && h != hash implies refers_into(
        graph,
        h,
        after,
    ) by {
        if middle.contains(h) {
            assert(refers_into(graph, h, middle));
            assert forall|i: int| 0 <= i < graph(h).len() implies after.contains(
                #[trigger] graph(h)[i],
            ) by {
                assert(middle.contains(graph(h)[i]));
                assert(middle.insert(child).contains(graph(h)[i]));
            }
        } else if h != child {
            assert(!middle.insert(child).contains(h));
        }
    }
    assert forall|i: int| 0 <= i < n + 1 implies after.contains(#[trigger] graph(hash)[i]) by {
        if i < n {
            assert(middle.contains(graph(hash)[i]));
            assert(middle.insert(child).contains(graph(hash)[i]));
        }
    }
}

/// The set with the hashes of a record.
pub open spec fn set_after(before: Set<Seq<u8>>, record: Seq<Marked>) -> Set<Seq<u8>>
    decreases record.len(),
{
    if record.len() == 0 {
        before
    } else {
        set_after(before, record.drop_last()).insert(record.last().hash@)
    }
}

/// A hash of the record counts as new where neither the set nor the record
/// before it has it.
pub open spec fn marked_in(before: Set<Seq<u8>>, record: Seq<Marked>) -> bool
    decreases record.len(),
{
    record.len() > 0 ==> marked_in(before, record.drop_last()) && record.last().fresh
        == !set_after(before, record.drop_last()).contains(record.last().hash@)
}

proof fn marked_concat(before: Set<Seq<u8>>, a: Seq<Marked>, b: Seq<Marked>)
    requires
        marked_in(before, a),
        marked_in(set_after(before, a), b),
    ensures
        marked_in(before, a + b),
        set_after(before, a + b) == set_after(set_after(before, a), b),
    decreases b.len(),
{
    if b.len() == 0 {
        assert(a + b =~= a);
    } else {
        marked_concat(before, a, b.drop_last());
        assert((a + b).drop_last() =~= a + b.drop_last());
    }
}

/// One more hash in the record.
proof fn marked_push(before: Set<Seq<u8>>, record: Seq<Marked>, item: Marked)
    requires
        marked_in(before, record),
        item.fresh == !set_after(before, record).contains(item.hash@),
    ensures
        marked_in(before, record + seq![item]),
        set_after(before, record + seq![item]) == set_after(before, record).insert(item.hash@),
{
    assert((record + seq![item]).drop_last() =~= record);
}

/// The record of marking everything below a node, starting from a set.
pub open spec fn marks_all<K, V>(
    load: spec_fn(StructuralHash, HamtNode<K, V>) -> bool,
    node: HamtNode<K, V>,
    levels: nat,
    before: Set<Seq<u8>>,
    record: Seq<Marked>,
) -> bool {
    &&& marked_in(before, record)
    &&& forall|store: spec_fn(StructuralHash) -> HamtNode<K, V>| #[trigger]
        loadable(load, store, node, levels) ==> swept(
            load,
            node,
            store,
            levels,
            node.children@.len(),
            record,
        )
}

/// The record of marking what is below a node, starting from a set, up to a
/// place where it stops.
pub open spec fn marks_to<K, V>(
    load: spec_fn(StructuralHash, HamtNode<K, V>) -> bool,
    node: HamtNode<K, V>,
    levels: nat,
    before: Set<Seq<u8>>,
    stop: Stop,
    record: Seq<Marked>,
) -> bool {
    &&& marked_in(before, record)
    &&& forall|store: spec_fn(StructuralHash) -> HamtNode<K, V>| #[trigger]
        loadable(load, store, node, levels) ==> swept_to(load, node, store, levels, stop, record)
}

/// What marking the nodes below a node returns and does.
pub open spec fn mark_outcome<K, V, F, E>(
    resolver: F,
    hash: Seq<u8>,
    node: HamtNode<K, V>,
    levels: nat,
    before: Set<Seq<u8>>,
    after: Set<Seq<u8>>,
    result: Result<(), HamtTraversalError<E>>,
) -> bool where F: FnMut(&StructuralHash) -> Result<Arc<HamtNode<K, V>>, E> {
    let load = loader::<K, V, E, F>(resolver);
    match result {
        Ok(_) => {
            &&& forall|
                store: spec_fn(StructuralHash) -> HamtNode<K, V>,
                graph: spec_fn(Seq<u8>) -> Seq<Seq<u8>>,
            |
                loadable(load, store, node, levels) && #[trigger] pictured(
                    graph,
                    hash,
                    node,
                    store,
                    levels,
                ) ==> marked_below(graph, hash, before, after)
            &&& exists|record: Seq<Marked>| #[trigger]
                marks_all(load, node, levels, before, record) && after == set_after(
                    before,
                    record,
                )
        },
        Err(HamtTraversalError::Resolve(error)) => exists|
            lazy: StructuralHash,
            record: Seq<Marked>,
        | #[trigger]
            marks_to(load, node, levels, before, Stop::Load(lazy), record) && call_ensures(
                resolver,
                (&lazy,),
                Err::<Arc<HamtNode<K, V>>, E>(error),
            ),
        Err(HamtTraversalError::MaxDepthExceeded { depth }) => {
            &&& depth == 52
            &&& exists|record: Seq<Marked>| #[trigger]
                marks_to(load, node, levels, before, Stop::Depth, record)
            &&& forall|store: spec_fn(StructuralHash) -> HamtNode<K, V>| #[trigger]
                loadable(load, store, node, levels) ==> too_deep(node, store, levels)
        },
    }
}

/// The set of hashes of a table.
pub open spec fn table_set(table: HashTable<()>) -> Set<Seq<u8>> {
    table.view().dom()
}

/// Marks the nodes below a node, and skips what has been marked before.
fn mark_below<K, V, F, E>(
    node: &Arc<HamtNode<K, V>>,
    hash: &StructuralHash,
    resolver: &mut F,
    seen: &mut HashTable<()>,
    depth: usize,
) -> (result: Result<(), HamtTraversalError<E>>) where
    F: FnMut(&StructuralHash) -> Result<Arc<HamtNode<K, V>>, E>,

    requires
        depth <= 52,
        resolver_total::<K, V, E, F>(*old(resolver)),
        old(seen).wf(),
    ensures
        *final(resolver) == *old(resolver),
        final(seen).wf(),
        mark_outcome::<K, V, F, E>(
            *old(resolver),
            hash@,
            **node,
            (52 - depth) as nat,
            table_set(*old(seen)),
            table_set(*final(seen)),
            result,
        ),
    decreases 52 - depth,
{
    let tree: &HamtNode<K, V> = &**node;
    let ghost before = table_set(*seen);
    if depth >= HAMT_MAX_DEPTH {
        proof {
            assert(marks_to(
                loader::<K, V, E, F>(*resolver),
                *tree,
                0,
                before,
                Stop::Depth,
                Seq::empty(),
            ));
        }
        return Err(HamtTraversalError::MaxDepthExceeded { depth });
    }
    let ghost levels = (52 - depth) as nat;
    let ghost load = loader::<K, V, E, F>(*resolver);
    let ghost mut record: Seq<Marked> = Seq::empty();
    let mut place: usize = 0;
    while place < tree.children.len()
        invariant
            place <= tree.children.len(),
            depth < 52,
            levels == 52 - depth,
            *tree == **node,
            *resolver == *old(resolver),
            load == loader::<K, V, E, F>(*resolver),
            resolver_total::<K, V, E, F>(*resolver),
            before == table_set(*old(seen)),
            seen.wf(),
            marked_in(before, record),
            table_set(*seen) == set_after(before, record),
            forall|store: spec_fn(StructuralHash) -> HamtNode<K, V>| #[trigger]
                loadable(load, store, *tree, levels) ==> swept(
                    load,
                    *tree,
                    store,
                    levels,
                    place as nat,
                    record,
                ),
            forall|
                store: spec_fn(StructuralHash) -> HamtNode<K, V>,
                graph: spec_fn(Seq<u8>) -> Seq<Seq<u8>>,
            |
                loadable(load, store, *tree, levels) && #[trigger] pictured(
                    graph,
                    hash@,
                    *tree,
                    store,
                    levels,
                ) ==> marked_upto(graph, hash@, place as nat, before, table_set(*seen)),
        decreases tree.children.len() - place,
    {
        let child_ref: &NodeRef<K, V> = &tree.children[place];
        let child_hash: StructuralHash = child_ref.structural_hash();
        let ghost middle = table_set(*seen);
        let known: bool = seen.find(&child_hash).is_some();
        let ghost item = Marked { hash: child_hash, fresh: !known };
        if known {
            proof {
                marked_push(before, record, item);
                assert(table_set(*seen).insert(child_hash@) =~= table_set(*seen));
                assert forall|store: spec_fn(StructuralHash) -> HamtNode<K, V>| #[trigger]
                    loadable(load, store, *tree, levels) implies swept(
                    load,
                    *tree,
                    store,
                    levels,
                    (place + 1) as nat,
                    record + seq![item],
                ) by {
                    swept_next(
                        load,
                        *tree,
                        store,
                        levels,
                        place as nat,
                        record,
                        item,
                        Seq::empty(),
                    );
                    assert(record + seq![item] + Seq::<Marked>::empty() =~= record + seq![item]);
                }
                record = record + seq![item];
                assert forall|
                    store: spec_fn(StructuralHash) -> HamtNode<K, V>,
                    graph: spec_fn(Seq<u8>) -> Seq<Seq<u8>>,
                |
                    loadable(load, store, *tree, levels) && #[trigger] pictured(
                        graph,
                        hash@,
                        *tree,
                        store,
                        levels,
                    ) implies marked_upto(
                    graph,
                    hash@,
                    (place + 1) as nat,
                    before,
                    table_set(*seen),
                ) by {
                    assert(graph(hash@)[place as int] == ref_hash(tree.children@[place as int]));
                    marked_seen(graph, hash@, place as nat, before, table_set(*seen));
                }
            }
        } else {
            seen.insert(child_hash, ());
            let ghost opened = table_set(*seen);
            proof {
                assert(opened =~= middle.insert(child_hash@));
                marked_push(before, record, item);
            }
            let child: Arc<HamtNode<K, V>> = match resolve_node(child_ref, resolver) {
                Ok(node) => node,
                Err(error) => {
                    proof {
                        let lazy = child_ref->Lazy_0;
                        let stop = Stop::Load(lazy);
                        let until = record + seq![item];
                        assert(tree.children@[place as int] == NodeRef::<K, V>::Lazy(lazy));
                        assert forall|store: spec_fn(StructuralHash) -> HamtNode<K, V>| #[trigger]
                            loadable(load, store, *tree, levels) implies swept_to(
                            load,
                            *tree,
                            store,
                            levels,
                            stop,
                            until,
                        ) by {
                            swept_to_next(
                                load,
                                *tree,
                                store,
                                levels,
                                place as nat,
                                stop,
                                record,
                                item,
                                Seq::empty(),
                            );
                            assert(until + Seq::<Marked>::empty() =~= until);
                        }
                        assert(marks_to(load, *tree, levels, before, stop, until));
                    }
                    return Err(HamtTraversalError::Resolve(error));
                },
            };
            let loaded: &HamtNode<K, V> = &*child;
            let below: Result<(), HamtTraversalError<E>> = mark_below(
                &child,
                &child_hash,
                resolver,
                seen,
                depth + 1,
            );
            proof {
                assert forall|store: spec_fn(StructuralHash) -> HamtNode<K, V>| #[trigger]
                    loadable(load, store, *tree, levels) implies loadable(
                    load,
                    store,
                    *child,
                    (52 - (depth + 1)) as nat,
                ) && *child == node_at(tree.children@[place as int], store) && (too_deep(
                    *child,
                    store,
                    (52 - (depth + 1)) as nat,
                ) ==> too_deep(*tree, store, levels)) by {
                    assert(tree.children@[place as int] == *child_ref);
                }
            }
            match below {
                Ok(_) => {
                    proof {
                        let below_levels = (52 - (depth + 1)) as nat;
                        let rest = choose|rest: Seq<Marked>| #[trigger]
                            marks_all(load, *loaded, below_levels, opened, rest) && table_set(
                                *seen,
                            ) == set_after(opened, rest);
                        marked_concat(before, record + seq![item], rest);
                        assert forall|store: spec_fn(StructuralHash) -> HamtNode<K, V>| #[trigger]
                            loadable(load, store, *tree, levels) implies swept(
                            load,
                            *tree,
                            store,
                            levels,
                            (place + 1) as nat,
                            record + seq![item] + rest,
                        ) by {
                            assert(loadable(load, store, *loaded, below_levels));
                            swept_next(
                                load,
                                *tree,
                                store,
                                levels,
                                place as nat,
                                record,
                                item,
                                rest,
                            );
                        }
                        record = record + seq![item] + rest;
                        assert forall|
                            store: spec_fn(StructuralHash) -> HamtNode<K, V>,
                            graph: spec_fn(Seq<u8>) -> Seq<Seq<u8>>,
                        |
                            loadable(load, store, *tree, levels) && #[trigger] pictured(
                                graph,
                                hash@,
                                *tree,
                                store,
                                levels,
                            ) implies marked_upto(
                            graph,
                            hash@,
                            (place + 1) as nat,
                            before,
                            table_set(*seen),
                        ) by {
                            assert(tree.children@[place as int] == *child_ref);
                            assert(graph(hash@)[place as int] == ref_hash(
                                tree.children@[place as int],
                            ));
                            assert(loadable(load, store, *child, (52 - (depth + 1)) as nat));
                            assert(pictured(
                                graph,
                                child_hash@,
                                *child,
                                store,
                                (52 - (depth + 1)) as nat,
                            ));
                            marked_next(
                                graph,
                                hash@,
                                place as nat,
                                before,
                                middle,
                                table_set(*seen),
                            );
                        }
                    }
                },
                Err(error) => {
                    proof {
                        let below_levels = (52 - (depth + 1)) as nat;
                        let (stop, rest) = if error is Resolve {
                            let (h, rest) = choose|h: StructuralHash, rest: Seq<Marked>| #[trigger]
                                marks_to(
                                    load,
                                    *loaded,
                                    below_levels,
                                    opened,
                                    Stop::Load(h),
                                    rest,
                                ) && call_ensures(
                                    *resolver,
                                    (&h,),
                                    Err::<Arc<HamtNode<K, V>>, E>(error->Resolve_0),
                                );
                            (Stop::Load(h), rest)
                        } else {
                            let rest = choose|rest: Seq<Marked>| #[trigger]
                                marks_to(load, *loaded, below_levels, opened, Stop::Depth, rest);
                            (Stop::Depth, rest)
                        };
                        let until = record + seq![item] + rest;
                        marked_concat(before, record + seq![item], rest);
                        assert forall|store: spec_fn(StructuralHash) -> HamtNode<K, V>| #[trigger]
                            loadable(load, store, *tree, levels) implies swept_to(
                            load,
                            *tree,
                            store,
                            levels,
                            stop,
                            until,
                        ) by {
                            assert(loadable(load, store, *loaded, below_levels));
                            swept_to_next(
                                load,
                                *tree,
                                store,
                                levels,
                                place as nat,
                                stop,
                                record,
                                item,
                                rest,
                            );
                        }
                        assert(marks_to(load, *tree, levels, before, stop, until));
                    }
                    return Err(error);
                },
            }
        }
        place = place + 1;
    }
    proof {
        assert forall|
            store: spec_fn(StructuralHash) -> HamtNode<K, V>,
            graph: spec_fn(Seq<u8>) -> Seq<Seq<u8>>,
        |
            loadable(load, store, *tree, levels) && #[trigger] pictured(
                graph,
                hash@,
                *tree,
                store,
                levels,
            ) implies marked_below(graph, hash@, before, table_set(*seen)) by {
            assert(marked_upto(graph, hash@, place as nat, before, table_set(*seen)));
            assert(graph(hash@) == ref_hashes(tree.children@));
        }
        assert(marks_all(load, *tree, levels, before, record));
    }
    Ok(())
}

/// Some root leads to the hash.
pub open spec fn reached_from<K, V>(
    graph: spec_fn(Seq<u8>) -> Seq<Seq<u8>>,
    roots: Seq<Arc<HamtNode<K, V>>>,
    hash: Seq<u8>,
) -> bool {
    exists|i: int|
        0 <= i < roots.len() && descends_to(
            graph,
            (#[trigger] roots[i]).structural_hash@,
            hash,
        )
}

/// The graph pictures every root, and what can be loaded is what a store holds:
/// nodes with equal hashes refer to equal hashes.
pub open spec fn pictures<K, V>(
    load: spec_fn(StructuralHash, HamtNode<K, V>) -> bool,
    graph: spec_fn(Seq<u8>) -> Seq<Seq<u8>>,
    store: spec_fn(StructuralHash) -> HamtNode<K, V>,
    roots: Seq<Arc<HamtNode<K, V>>>,
) -> bool {
    forall|i: int|
        0 <= i < roots.len() ==> loadable(load, store, *(#[trigger] roots[i]), 52) && pictured(
            graph,
            roots[i].structural_hash@,
            *roots[i],
            store,
            52,
        )
}

/// A closed set has whatever its members lead to.
proof fn closed_under_descent(
    graph: spec_fn(Seq<u8>) -> Seq<Seq<u8>>,
    seen: Set<Seq<u8>>,
    path: Seq<Seq<u8>>,
)
    requires
        forall|h: Seq<u8>| #[trigger] seen.contains(h) ==> refers_into(graph, h, seen),
        is_descent(graph, path),
        seen.contains(path[0]),
    ensures
        seen.contains(path.last()),
    decreases path.len(),
{
    if path.len() > 1 {
        let shorter = path.drop_last();
        assert forall|i: int| 0 <= i < shorter.len() - 1 implies graph(
            #[trigger] shorter[i],
        ).contains(shorter[i + 1]) by {
            assert(shorter[i] == path[i] && shorter[i + 1] == path[i + 1]);
        }
        closed_under_descent(graph, seen, shorter);
        let last = path[path.len() - 2];
        assert(shorter.last() == last);
        assert(graph(last).contains(path[path.len() - 2 + 1]));
        let k = choose|k: int|
            0 <= k < graph(last).len() && #[trigger] graph(last)[k] == path.last();
        assert(seen.contains(graph(last)[k]));
    }
}

/// The hashes that the first roots reach.
pub open spec fn reached_exactly<K, V>(
    graph: spec_fn(Seq<u8>) -> Seq<Seq<u8>>,
    roots: Seq<Arc<HamtNode<K, V>>>,
    seen: Set<Seq<u8>>,
) -> bool {
    &&& forall|h: Seq<u8>| #[trigger] seen.contains(h) ==> refers_into(graph, h, seen)
    &&& forall|h: Seq<u8>| #[trigger] seen.contains(h) ==> reached_from(graph, roots, h)
    &&& forall|i: int|
        0 <= i < roots.len() ==> seen.contains((#[trigger] roots[i]).structural_hash@)
}

/// Marks every node that one of the roots reaches.
fn mark_roots<K, V, F, E>(roots: &Vec<Arc<HamtNode<K, V>>>, resolver: &mut F) -> (result: Result<
    HashTable<()>,
    HamtTraversalError<E>,
>) where F: FnMut(&StructuralHash) -> Result<Arc<HamtNode<K, V>>, E>
    requires
        resolver_total::<K, V, E, F>(*old(resolver)),
    ensures
        *final(resolver) == *old(resolver),
        result matches Ok(seen) ==> seen.wf(),
        marking::<K, V, F, E>(
            *old(resolver),
            roots@,
            match result {
                Ok(seen) => Ok(table_set(seen)),
                Err(error) => Err(error),
            },
        ),
{
    let ghost load = loader::<K, V, E, F>(*resolver);
    let mut seen: HashTable<()> = HashTable::new();
    let mut index: usize = 0;
    proof {
        assert(roots@.take(0).len() == 0);
    }
    while index < roots.len()
        invariant
            index <= roots.len(),
            *resolver == *old(resolver),
            load == loader::<K, V, E, F>(*resolver),
            resolver_total::<K, V, E, F>(*resolver),
            seen.wf(),
            forall|
                store: spec_fn(StructuralHash) -> HamtNode<K, V>,
                graph: spec_fn(Seq<u8>) -> Seq<Seq<u8>>,
            | #[trigger]
                pictures(load, graph, store, roots@) ==> reached_exactly(
                    graph,
                    roots@.take(index as int),
                    table_set(seen),
                ),
        decreases roots.len() - index,
    {
        let root: &Arc<HamtNode<K, V>> = &roots[index];
        let tree: &HamtNode<K, V> = &**root;
        let hash: StructuralHash = root.structural_hash;
        let ghost before = table_set(seen);
        let ghost listed = roots@.take(index as int);
        let ghost more = roots@.take(index + 1);
        proof {
            assert(more =~= listed.push(*root));
        }
        let known: bool = seen.find(&hash).is_some();
        if !known {
            seen.insert(hash, ());
            let ghost opened = table_set(seen);
            proof {
                assert(opened =~= before.insert(hash@));
            }
            let below: Result<(), HamtTraversalError<E>> = mark_below(
                root,
                &hash,
                resolver,
                &mut seen,
                0,
            );
            match below {
                Ok(_) => {
                    proof {
                        assert forall|
                            store: spec_fn(StructuralHash) -> HamtNode<K, V>,
                            graph: spec_fn(Seq<u8>) -> Seq<Seq<u8>>,
                        | #[trigger]
                            pictures(load, graph, store, roots@) implies reached_exactly(
                            graph,
                            more,
                            table_set(seen),
                        ) by {
                            assert(loadable(load, store, *roots@[index as int], 52));
                            assert(pictured(graph, hash@, **root, store, 52));
                            assert(marked_below(graph, hash@, opened, table_set(seen)));
                            reached_more(graph, listed, *root, before, table_set(seen));
                        }
                    }
                },
                Err(error) => {
                    proof {
                        let (stop, record) = if error is Resolve {
                            let (h, record) = choose|h: StructuralHash, record: Seq<Marked>|
                                #[trigger]
                                marks_to(load, *tree, 52, opened, Stop::Load(h), record)
                                    && call_ensures(
                                    *resolver,
                                    (&h,),
                                    Err::<Arc<HamtNode<K, V>>, E>(error->Resolve_0),
                                );
                            (Stop::Load(h), record)
                        } else {
                            let record = choose|record: Seq<Marked>| #[trigger]
                                marks_to(load, *tree, 52, opened, Stop::Depth, record);
                            (Stop::Depth, record)
                        };
                        assert(root_stops(load, roots@, index as int, before, stop, record));
                        assert(error is MaxDepthExceeded ==> forall|
                            store: spec_fn(StructuralHash) -> HamtNode<K, V>,
                            graph: spec_fn(Seq<u8>) -> Seq<Seq<u8>>,
                        | #[trigger]
                            pictures(load, graph, store, roots@) ==> exists|i: int|
                                0 <= i < roots@.len() && too_deep(
                                    *(#[trigger] roots@[i]),
                                    store,
                                    52,
                                )) by {
                            if error is MaxDepthExceeded {
                                assert forall|
                                    store: spec_fn(StructuralHash) -> HamtNode<K, V>,
                                    graph: spec_fn(Seq<u8>) -> Seq<Seq<u8>>,
                                | #[trigger]
                                    pictures(load, graph, store, roots@) implies exists|i: int|
                                    0 <= i < roots@.len() && too_deep(
                                        *(#[trigger] roots@[i]),
                                        store,
                                        52,
                                    ) by {
                                    assert(loadable(load, store, *roots@[index as int], 52));
                                    assert(too_deep(*roots@[index as int], store, 52));
                                }
                            }
                        }
                    }
                    return Err(error);
                },
            }
        } else {
            proof {
                assert forall|
                    store: spec_fn(StructuralHash) -> HamtNode<K, V>,
                    graph: spec_fn(Seq<u8>) -> Seq<Seq<u8>>,
                | #[trigger] pictures(load, graph, store, roots@) implies reached_exactly(
                    graph,
                    more,
                    table_set(seen),
                ) by {
                    assert forall|h: Seq<u8>| #[trigger] before.contains(h) implies reached_from(
                        graph,
                        more,
                        h,
                    ) by {
                        reached_still(graph, listed, *root, h);
                    }
                    assert forall|i: int| 0 <= i < more.len() implies before.contains(
                        (#[trigger] more[i]).structural_hash@,
                    ) by {
                        if i < listed.len() {
                            assert(more[i] == listed[i]);
                        }
                    }
                }
            }
        }
        index = index + 1;
    }
    proof {
        assert(roots@.take(index as int) =~= roots@);
        assert forall|
            store: spec_fn(StructuralHash) -> HamtNode<K, V>,
            graph: spec_fn(Seq<u8>) -> Seq<Seq<u8>>,
        | #[trigger] pictures(load, graph, store, roots@) implies forall|h: Seq<u8>| #[trigger]
            table_set(seen).contains(h) <==> reached_from(graph, roots@, h) by {
            assert forall|h: Seq<u8>| #[trigger] table_set(seen).contains(h) <==> reached_from(
                graph,
                roots@,
                h,
            ) by {
                if reached_from(graph, roots@, h) {
                    let i = choose|i: int|
                        0 <= i < roots@.len() && descends_to(
                            graph,
                            (#[trigger] roots@[i]).structural_hash@,
                            h,
                        );
                    let path = choose|path: Seq<Seq<u8>>| #[trigger]
                        is_descent(graph, path) && path[0] == roots@[i].structural_hash@
                            && path.last() == h;
                    closed_under_descent(graph, table_set(seen), path);
                }
            }
        }
    }
    Ok(seen)
}

proof fn reached_still<K, V>(
    graph: spec_fn(Seq<u8>) -> Seq<Seq<u8>>,
    roots: Seq<Arc<HamtNode<K, V>>>,
    root: Arc<HamtNode<K, V>>,
    h: Seq<u8>,
)
    requires
        reached_from(graph, roots, h),
    ensures
        reached_from(graph, roots.push(root), h),
{
    let i = choose|i: int|
        0 <= i < roots.len() && descends_to(graph, (#[trigger] roots[i]).structural_hash@, h);
    assert(roots.push(root)[i] == roots[i]);
}

proof fn reached_more<K, V>(
    graph: spec_fn(Seq<u8>) -> Seq<Seq<u8>>,
    roots: Seq<Arc<HamtNode<K, V>>>,
    root: Arc<HamtNode<K, V>>,
    before: Set<Seq<u8>>,
    after: Set<Seq<u8>>,
)
    requires
        reached_exactly(graph, roots, before),
        !before.contains(root.structural_hash@),
        marked_below(
            graph,
            root.structural_hash@,
            before.insert(root.structural_hash@),
            after,
        ),
    ensures
        reached_exactly(graph, roots.push(root), after),
{
    let hash = root.structural_hash@;
    let more = roots.push(root);
    let opened = before.insert(hash);
    assert(more[roots.len() as int] == root);
    assert forall|h: Seq<u8>| #[trigger] after.contains(h) implies refers_into(
        graph,
        h,
        after,
    ) by {
        if before.contains(h) {
            assert(refers_into(graph, h, before));
            assert forall|i: int| 0 <= i < graph(h).len() implies after.contains(
                #[trigger] graph(h)[i],
            ) by {
                assert(before.contains(graph(h)[i]));
                assert(opened.contains(graph(h)[i]));
            }
        } else if h != hash {
            assert(!opened.contains(h));
        }
    }
    assert forall|h: Seq<u8>| #[trigger] after.contains(h) implies reached_from(graph, more, h) by {
        if before.contains(h) {
            reached_still(graph, roots, root, h);
        } else if h == hash {
            descends_nowhere(graph, hash);
            assert(descends_to(graph, more[roots.len() as int].structural_hash@, h));
        } else {
            assert(!opened.contains(h));
            assert(descends_to(graph, more[roots.len() as int].structural_hash@, h));
        }
    }
    assert forall|i: int| 0 <= i < more.len() implies after.contains(
        (#[trigger] more[i]).structural_hash@,
    ) by {
        if i < roots.len() {
            assert(more[i] == roots[i]);
            assert(opened.contains(more[i].structural_hash@));
        } else {
            assert(opened.contains(hash));
        }
    }
}

/// What marking from some roots comes to: exactly what the roots reach, where a
/// graph pictures the nodes.
pub open spec fn marking<K, V, F, E>(
    resolver: F,
    roots: Seq<Arc<HamtNode<K, V>>>,
    result: Result<Set<Seq<u8>>, HamtTraversalError<E>>,
) -> bool where F: FnMut(&StructuralHash) -> Result<Arc<HamtNode<K, V>>, E> {
    let load = loader::<K, V, E, F>(resolver);
    match result {
        Ok(seen) => forall|
            store: spec_fn(StructuralHash) -> HamtNode<K, V>,
            graph: spec_fn(Seq<u8>) -> Seq<Seq<u8>>,
        | #[trigger]
            pictures(load, graph, store, roots) ==> forall|h: Seq<u8>| #[trigger]
                seen.contains(h) <==> reached_from(graph, roots, h),
        Err(HamtTraversalError::Resolve(error)) => exists|
            lazy: StructuralHash,
            i: int,
            prior: Set<Seq<u8>>,
            record: Seq<Marked>,
        | #[trigger]
            root_stops(load, roots, i, prior, Stop::Load(lazy), record) && call_ensures(
                resolver,
                (&lazy,),
                Err::<Arc<HamtNode<K, V>>, E>(error),
            ),
        Err(HamtTraversalError::MaxDepthExceeded { depth }) => {
            &&& depth == 52
            &&& exists|i: int, prior: Set<Seq<u8>>, record: Seq<Marked>| #[trigger]
                root_stops(load, roots, i, prior, Stop::Depth, record)
            &&& forall|
                store: spec_fn(StructuralHash) -> HamtNode<K, V>,
                graph: spec_fn(Seq<u8>) -> Seq<Seq<u8>>,
            | #[trigger]
                pictures(load, graph, store, roots) ==> exists|i: int|
                    0 <= i < roots.len() && too_deep(*(#[trigger] roots[i]), store, 52)
        },
    }
}

/// Marking stops at a root that the roots before it do not reach, or below it:
/// nothing is loaded that was marked before.
pub open spec fn root_stops<K, V>(
    load: spec_fn(StructuralHash, HamtNode<K, V>) -> bool,
    roots: Seq<Arc<HamtNode<K, V>>>,
    i: int,
    prior: Set<Seq<u8>>,
    stop: Stop,
    record: Seq<Marked>,
) -> bool {
    &&& 0 <= i < roots.len()
    &&& !prior.contains(roots[i].structural_hash@)
    &&& forall|
        store: spec_fn(StructuralHash) -> HamtNode<K, V>,
        graph: spec_fn(Seq<u8>) -> Seq<Seq<u8>>,
    | #[trigger]
        pictures(load, graph, store, roots) ==> reached_exactly(graph, roots.take(i), prior)
    &&& marks_to(
        load,
        *roots[i],
        52,
        prior.insert(roots[i].structural_hash@),
        stop,
        record,
    )
}

/// A universe of hashes, split into those that the roots reach and the others.
#[derive(Debug, Clone, PartialEq, Eq)]
pub struct NodeReachabilityAudit {
    pub reachable: Vec<StructuralHash>,
    pub unreachable: Vec<StructuralHash>,
}

/// The first hashes that are, or are not, in a set, each once, in order.
pub open spec fn distinct_where(
    universe: Seq<StructuralHash>,
    seen: Set<Seq<u8>>,
    inside: bool,
    n: nat,
) -> Seq<Seq<u8>>
    decreases n,
{
    if n == 0 {
        Seq::empty()
    } else {
        let before = distinct_where(universe, seen, inside, (n - 1) as nat);
        let hash = universe[n - 1]@;
        if seen.contains(hash) == inside && !before.contains(hash) {
            before.push(hash)
        } else {
            before
        }
    }
}

/// The audit splits the universe by a set.
pub open spec fn partitions(
    audit: NodeReachabilityAudit,
    universe: Seq<StructuralHash>,
    seen: Set<Seq<u8>>,
) -> bool {
    &&& hash_views(audit.reachable@) == distinct_where(universe, seen, true, universe.len())
    &&& hash_views(audit.unreachable@) == distinct_where(universe, seen, false, universe.len())
}

/// Splits a universe by the hashes that have been seen.
fn partition(universe: &[StructuralHash], seen: &HashTable<()>) -> (audit: NodeReachabilityAudit)
    requires
        seen.wf(),
    ensures
        partitions(audit, universe@, table_set(*seen)),
{
    let mut reachable: Vec<StructuralHash> = Vec::new();
    let mut unreachable: Vec<StructuralHash> = Vec::new();
    let mut listed: HashTable<()> = HashTable::new();
    let ghost set = table_set(*seen);
    let mut index: usize = 0;
    proof {
        assert(hash_views(reachable@) =~= Seq::empty());
        assert(hash_views(unreachable@) =~= Seq::empty());
    }
    while index < universe.len()
        invariant
            index <= universe.len(),
            seen.wf(),
            listed.wf(),
            set == table_set(*seen),
            hash_views(reachable@) == distinct_where(universe@, set, true, index as nat),
            hash_views(unreachable@) == distinct_where(universe@, set, false, index as nat),
            forall|h: Seq<u8>| #[trigger]
                table_set(listed).contains(h) && set.contains(h) <==> hash_views(
                    reachable@,
                ).contains(h),
            forall|h: Seq<u8>| #[trigger]
                table_set(listed).contains(h) && !set.contains(h) <==> hash_views(
                    unreachable@,
                ).contains(h),
        decreases universe.len() - index,
    {
        let hash: StructuralHash = universe[index];
        let ghost inner = hash_views(reachable@);
        let ghost outer = hash_views(unreachable@);
        let ghost known = table_set(listed);
        let is_listed: bool = listed.find(&hash).is_some();
        let is_seen: bool = seen.find(&hash).is_some();
        proof {
            assert(known.contains(hash@) && set.contains(hash@) <==> inner.contains(hash@));
            assert(known.contains(hash@) && !set.contains(hash@) <==> outer.contains(hash@));
        }
        if !is_listed {
            listed.insert(hash, ());
            if is_seen {
                reachable.push(hash);
                proof {
                    assert(hash_views(reachable@) =~= inner.push(hash@));
                    pushed_contents(inner, hash@);
                }
            } else {
                unreachable.push(hash);
                proof {
                    assert(hash_views(unreachable@) =~= outer.push(hash@));
                    pushed_contents(outer, hash@);
                }
            }
            proof {
                assert(table_set(listed) =~= known.insert(hash@));
                assert forall|h: Seq<u8>| #[trigger]
                    table_set(listed).contains(h) && set.contains(h) <==> hash_views(
                        reachable@,
                    ).contains(h) by {
                    assert(known.contains(h) && set.contains(h) <==> inner.contains(h));
                }
                assert forall|h: Seq<u8>| #[trigger]
                    table_set(listed).contains(h) && !set.contains(h) <==> hash_views(
                        unreachable@,
                    ).contains(h) by {
                    assert(known.contains(h) && !set.contains(h) <==> outer.contains(h));
                }
            }
        }
        index = index + 1;
    }
    NodeReachabilityAudit { reachable, unreachable }
}

proof fn pushed_contents(list: Seq<Seq<u8>>, item: Seq<u8>)
    ensures
        forall|h: Seq<u8>| #[trigger] list.push(item).contains(h) <==> list.contains(h) || h == item,
{
    assert forall|h: Seq<u8>| #[trigger] list.push(item).contains(h) <==> list.contains(h) || h
        == item by {
        if list.contains(h) {
            let i = choose|i: int| 0 <= i < list.len() && list[i] == h;
            assert(list.push(item)[i] == h);
        }
        if h == item {
            assert(list.push(item)[list.len() as int] == h);
        }
        if list.push(item).contains(h) && h != item {
            let i = choose|i: int| 0 <= i < list.push(item).len() && list.push(item)[i] == h;
            assert(list[i] == h);
        }
    }
}

/// Tells which hashes of a universe the live roots reach. Each hash is listed
/// once, however often the universe names it.
///
/// # Errors
/// Returns an error if a node cannot be resolved, or if a root is deeper than a
/// legitimately built trie can be. There is no partial answer.
pub fn node_reachability_audit<K, V, F, E>(
    roots: &Vec<Arc<HamtNode<K, V>>>,
    universe: &[StructuralHash],
    resolver: &mut F,
) -> (result: Result<NodeReachabilityAudit, HamtTraversalError<E>>) where
    F: FnMut(&StructuralHash) -> Result<Arc<HamtNode<K, V>>, E>,

    requires
        resolver_total::<K, V, E, F>(*old(resolver)),
    ensures
        *final(resolver) == *old(resolver),
        match result {
            Ok(audit) => exists|seen: Set<Seq<u8>>| #[trigger]
                partitions(audit, universe@, seen) && marking::<K, V, F, E>(
                    *old(resolver),
                    roots@,
                    Ok(seen),
                ),
            Err(error) => marking::<K, V, F, E>(*old(resolver), roots@, Err(error)),
        },
{
    let seen: HashTable<()> = match mark_roots(roots, resolver) {
        Ok(seen) => seen,
        Err(error) => return Err(error),
    };
    let audit: NodeReachabilityAudit = partition(universe, &seen);
    let ghost set = table_set(seen);
    let result: Result<NodeReachabilityAudit, HamtTraversalError<E>> = Ok(audit);
    proof {
        assert(partitions(result->Ok_0, universe@, set));
    }
    result
}

/// The hashes of a universe that no live root reaches.
///
/// # Errors
/// As [`node_reachability_audit`].
pub fn unreachable_node_hashes<K, V, F, E>(
    roots: &Vec<Arc<HamtNode<K, V>>>,
    universe: &[StructuralHash],
    resolver: &mut F,
) -> (result: Result<Vec<StructuralHash>, HamtTraversalError<E>>) where
    F: FnMut(&StructuralHash) -> Result<Arc<HamtNode<K, V>>, E>,

    requires
        resolver_total::<K, V, E, F>(*old(resolver)),
    ensures
        *final(resolver) == *old(resolver),
        result matches Ok(hashes) ==> exists|audit: NodeReachabilityAudit, seen: Set<Seq<u8>>|
            #[trigger]
            partitions(audit, universe@, seen) && marking::<K, V, F, E>(
                *old(resolver),
                roots@,
                Ok(seen),
            ) && hashes@ == audit.unreachable@,
        result matches Err(error) ==> marking::<K, V, F, E>(*old(resolver), roots@, Err(error)),
{
    match node_reachability_audit(roots, universe, resolver) {
        Ok(audit) => Ok(audit.unreachable),
        Err(error) => Err(error),
    }
}

/// A universe has too many distinct hashes to be indexed.
#[derive(Debug, Clone, Copy, PartialEq, Eq, Structural)]
pub struct UniverseTooLarge {
    pub distinct_count: u64,
    /// Memory ran out before every hash was counted.
    pub allocation_failed: bool,
}

/// The error as text.
pub open spec fn too_large_text(error: UniverseTooLarge) -> Seq<char> {
    if error.allocation_failed {
        "universe has at least "@ + decimal(error.distinct_count as nat)
            + " distinct hashes (allocation failed before scanning complete), more than u32::MAX can index"@
    } else {
        "universe has "@ + decimal(error.distinct_count as nat)
            + " distinct hashes, more than u32::MAX can index"@
    }
}

impl UniverseTooLarge {
    /// The error as text.
    pub fn message(&self) -> (text: String)
        ensures
            text@ == too_large_text(*self),
    {
        if self.allocation_failed {
            let mut text: String = String::from_str("universe has at least ");
            push_decimal(&mut text, self.distinct_count);
            text.append(
                " distinct hashes (allocation failed before scanning complete), more than u32::MAX can index",
            );
            text
        } else {
            let mut text: String = String::from_str("universe has ");
            push_decimal(&mut text, self.distinct_count);
            text.append(" distinct hashes, more than u32::MAX can index");
            text
        }
    }
}

/// There are more distinct items than an index may hold.
#[derive(Debug, Clone, Copy, PartialEq, Eq, Structural)]
pub struct IndexTooLarge {
    pub distinct_count: u64,
    /// Memory ran out before every item was counted.
    pub allocation_failed: bool,
}

impl From<IndexTooLarge> for UniverseTooLarge {
    fn from(error: IndexTooLarge) -> (wrapped: Self) {
        UniverseTooLarge {
            distinct_count: error.distinct_count,
            allocation_failed: error.allocation_failed,
        }
    }
}

impl vstd::std_specs::convert::FromSpecImpl<IndexTooLarge> for UniverseTooLarge {
    open spec fn obeys_from_spec() -> bool {
        true
    }

    open spec fn from_spec(error: IndexTooLarge) -> Self {
        UniverseTooLarge {
            distinct_count: error.distinct_count,
            allocation_failed: error.allocation_failed,
        }
    }
}

/// The distinct hashes, in the order in which they were first seen.
///
/// # Errors
/// Returns [`IndexTooLarge`], with the count of all distinct hashes, if there
/// are more of them than the bound.
pub fn distinct_bounded(universe: &[StructuralHash], bound: u64) -> (result: Result<
    Vec<StructuralHash>,
    IndexTooLarge,
>)
    ensures
        ({
            let distinct = distinct_where(universe@, Set::empty(), false, universe@.len());
            if distinct.len() <= bound {
                result matches Ok(hashes) && hash_views(hashes@) == distinct
            } else {
                result matches Err(error) && error.distinct_count == distinct.len()
                    && !error.allocation_failed
            }
        }),
{
    let nothing: HashTable<()> = HashTable::new();
    proof {
        assert(table_set(nothing) =~= Set::<Seq<u8>>::empty());
    }
    let hashes: Vec<StructuralHash> = partition(universe, &nothing).unreachable;
    let distinct_count: u64 = hashes.len() as u64;
    if distinct_count > bound {
        return Err(IndexTooLarge { distinct_count, allocation_failed: false });
    }
    Ok(hashes)
}

/// Hashes with dense indices, in the order in which they were first seen.
#[derive(Debug, Clone, PartialEq, Eq)]
pub struct IndexedUniverse {
    pub hashes: Vec<StructuralHash>,
    pub indices: HashTable<u32>,
}

impl IndexedUniverse {
    /// Every hash has its place as its index, and no hash stands twice.
    pub open spec fn wf(&self) -> bool {
        &&& self.indices.wf()
        &&& self.hashes@.len() <= u32::MAX
        &&& forall|i: int|
            0 <= i < self.hashes@.len() ==> self.indices.view().contains_key(
                (#[trigger] self.hashes@[i])@,
            ) && self.indices.view()[self.hashes@[i]@] == i
        &&& forall|h: Seq<u8>| #[trigger]
            self.indices.view().contains_key(h) ==> self.indices.view()[h] < self.hashes@.len()
                && self.hashes@[self.indices.view()[h] as int]@ == h
    }

    /// Gives every distinct hash an index.
    ///
    /// # Errors
    /// Returns [`UniverseTooLarge`] if there are more distinct hashes than a
    /// 32-bit index can tell apart.
    pub fn try_build(universe: &[StructuralHash]) -> (result: Result<Self, UniverseTooLarge>)
        ensures
            match result {
                Ok(indexed) => {
                    &&& indexed.wf()
                    &&& hash_views(indexed.hashes@) == distinct_where(
                        universe@,
                        Set::empty(),
                        false,
                        universe@.len(),
                    )
                },
                Err(error) => {
                    &&& error.distinct_count == distinct_where(
                        universe@,
                        Set::empty(),
                        false,
                        universe@.len(),
                    ).len()
                    &&& error.distinct_count > u32::MAX
                    &&& !error.allocation_failed
                },
            },
    {
        let hashes: Vec<StructuralHash> = match distinct_bounded(universe, u32::MAX as u64) {
            Ok(hashes) => hashes,
            Err(error) => return Err(UniverseTooLarge::from(error)),
        };
        let mut indices: HashTable<u32> = HashTable::new();
        let mut index: usize = 0;
        proof {
            distinct_distinct(universe@, Set::empty(), false, universe@.len());
        }
        let ghost contents = hash_views(hashes@);
        while index < hashes.len()
            invariant
                index <= hashes.len() <= u32::MAX,
                contents == hash_views(hashes@),
                contents.no_duplicates(),
                indices.wf(),
                forall|i: int|
                    0 <= i < index ==> indices.view().contains_key((#[trigger] hashes@[i])@)
                        && indices.view()[hashes@[i]@] == i,
                forall|h: Seq<u8>| #[trigger]
                    indices.view().contains_key(h) ==> indices.view()[h] < index
                        && hashes@[indices.view()[h] as int]@ == h,
            decreases hashes.len() - index,
        {
            let ghost held = indices.view();
            indices.insert(hashes[index], index as u32);
            proof {
                assert forall|i: int| 0 <= i < index + 1 implies indices.view().contains_key(
                    (#[trigger] hashes@[i])@,
                ) && indices.view()[hashes@[i]@] == i by {
                    if i < index {
                        assert(contents[i] != contents[index as int]);
                        assert(held.contains_key(hashes@[i]@));
                    }
                }
                assert forall|h: Seq<u8>| #[trigger] indices.view().contains_key(h) implies
                    indices.view()[h] < index + 1 && hashes@[indices.view()[h] as int]@ == h by {
                    if h != hashes@[index as int]@ {
                        assert(held.contains_key(h));
                    }
                }
            }
            index = index + 1;
        }
        Ok(IndexedUniverse { hashes, indices })
    }

    /// How many distinct hashes there are.
    pub fn len(&self) -> (count: usize)
        ensures
            count == self.hashes@.len(),
    {
        self.hashes.len()
    }

    /// Whether there is no hash.
    pub fn is_empty(&self) -> (result: bool)
        ensures
            result == (self.hashes@.len() == 0),
    {
        self.hashes.len() == 0
    }

    /// The index of a hash.
    pub fn index_of(&self, hash: &StructuralHash) -> (found: Option<u32>)
        requires
            self.wf(),
        ensures
            match found {
                Some(index) => index < self.hashes@.len() && self.hashes@[index as int]@ == hash@,
                None => !hash_views(self.hashes@).contains(hash@),
            },
    {
        match self.indices.get(hash) {
            Some(index) => Some(*index),
            None => {
                proof {
                    if hash_views(self.hashes@).contains(hash@) {
                        let i = choose|i: int|
                            0 <= i < self.hashes@.len() && hash_views(self.hashes@)[i] == hash@;
                        assert(self.indices.view().contains_key(self.hashes@[i]@));
                    }
                }
                None
            },
        }
    }

    /// The hash with an index.
    pub fn hash_at(&self, index: u32) -> (found: Option<StructuralHash>)
        ensures
            found == if index < self.hashes@.len() {
                Some(self.hashes@[index as int])
            } else {
                None
            },
    {
        if (index as usize) < self.hashes.len() {
            Some(self.hashes[index as usize])
        } else {
            None
        }
    }

    /// The hashes in the order of their indices.
    pub fn hashes(&self) -> (hashes: &[StructuralHash])
        ensures
            hashes@ == self.hashes@,
    {
        self.hashes.as_slice()
    }
}

/// Listed hashes are distinct.
proof fn distinct_distinct(
    universe: Seq<StructuralHash>,
    seen: Set<Seq<u8>>,
    inside: bool,
    n: nat,
)
    ensures
        distinct_where(universe, seen, inside, n).no_duplicates(),
    decreases n,
{
    if n > 0 {
        distinct_distinct(universe, seen, inside, (n - 1) as nat);
        let before = distinct_where(universe, seen, inside, (n - 1) as nat);
        let hash = universe[n - 1]@;
        if !before.contains(hash) {
            let after = before.push(hash);
            assert forall|i: int, j: int|
                0 <= i < after.len() && 0 <= j < after.len() && i != j implies after[i]
                != after[j] by {
                if i == before.len() {
                    assert(before[j] != hash);
                } else if j == before.len() {
                    assert(before[i] != hash);
                }
            }
        }
    }
}

/// Why an audit with bitmaps failed.
#[derive(Debug, Clone, PartialEq, Eq)]
pub enum BitmapAuditError<E> {
    Universe(UniverseTooLarge),
    Traversal(HamtTraversalError<E>),
}

impl<E> BitmapAuditError<E> {
    /// The error as text, with the text of the resolver's error.
    pub fn message<D: Fn(&E) -> String>(&self, describe: D) -> (text: String)
        requires
            forall|error: &E| #[trigger] call_requires(describe, (error,)),
        ensures
            match *self {
                BitmapAuditError::Universe(error) => text@ == too_large_text(error),
                BitmapAuditError::Traversal(HamtTraversalError::Resolve(error)) => exists|
                    cause: String,
                | #[trigger]
                    call_ensures(describe, (&error,), cause) && text@
                        == "hamt traversal resolver failed: "@ + cause@,
                BitmapAuditError::Traversal(HamtTraversalError::MaxDepthExceeded { depth }) => text@
                    == "hamt traversal exceeded max depth at "@ + decimal(depth as nat),
            },
    {
        match self {
            BitmapAuditError::Universe(error) => error.message(),
            BitmapAuditError::Traversal(error) => error.message(describe),
        }
    }
}

impl<E> From<UniverseTooLarge> for BitmapAuditError<E> {
    fn from(error: UniverseTooLarge) -> (wrapped: Self) {
        BitmapAuditError::Universe(error)
    }
}

impl<E> vstd::std_specs::convert::FromSpecImpl<UniverseTooLarge> for BitmapAuditError<E> {
    open spec fn obeys_from_spec() -> bool {
        true
    }

    open spec fn from_spec(error: UniverseTooLarge) -> Self {
        BitmapAuditError::Universe(error)
    }
}

impl<E> From<HamtTraversalError<E>> for BitmapAuditError<E> {
    fn from(error: HamtTraversalError<E>) -> (wrapped: Self) {
        BitmapAuditError::Traversal(error)
    }
}

impl<E> vstd::std_specs::convert::FromSpecImpl<HamtTraversalError<E>> for BitmapAuditError<E> {
    open spec fn obeys_from_spec() -> bool {
        true
    }

    open spec fn from_spec(error: HamtTraversalError<E>) -> Self {
        BitmapAuditError::Traversal(error)
    }
}

/// A universe of hashes, split by their indices.
#[derive(Debug)]
pub struct BitmapReachabilityAudit {
    pub universe: IndexedUniverse,
    pub reachable: roaring::RoaringBitmap,
    pub unreachable: roaring::RoaringBitmap,
}

/// The bitmaps hold the indices of the hashes inside and outside of a set.
pub open spec fn indexes(audit: BitmapReachabilityAudit, seen: Set<Seq<u8>>) -> bool {
    &&& forall|b: u32| #[trigger]
        bitmap_set(audit.reachable).contains(b) <==> b < audit.universe.hashes@.len()
            && seen.contains(audit.universe.hashes@[b as int]@)
    &&& forall|b: u32| #[trigger]
        bitmap_set(audit.unreachable).contains(b) <==> b < audit.universe.hashes@.len()
            && !seen.contains(audit.universe.hashes@[b as int]@)
}

/// As [`node_reachability_audit`], with the two sides as bitmaps over the indices
/// of the universe.
///
/// # Errors
/// As [`node_reachability_audit`] and [`IndexedUniverse::try_build`].
pub fn bitmap_node_reachability_audit<K, V, F, E>(
    roots: &Vec<Arc<HamtNode<K, V>>>,
    universe: &[StructuralHash],
    resolver: &mut F,
) -> (result: Result<BitmapReachabilityAudit, BitmapAuditError<E>>) where
    F: FnMut(&StructuralHash) -> Result<Arc<HamtNode<K, V>>, E>,

    requires
        resolver_total::<K, V, E, F>(*old(resolver)),
    ensures
        *final(resolver) == *old(resolver),
        match result {
            Ok(audit) => {
                &&& audit.universe.wf()
                &&& hash_views(audit.universe.hashes@) == distinct_where(
                    universe@,
                    Set::empty(),
                    false,
                    universe@.len(),
                )
                &&& exists|seen: Set<Seq<u8>>| #[trigger]
                    indexes(audit, seen) && marking::<K, V, F, E>(*old(resolver), roots@, Ok(seen))
            },
            Err(BitmapAuditError::Universe(error)) => {
                &&& error.distinct_count == distinct_where(
                    universe@,
                    Set::empty(),
                    false,
                    universe@.len(),
                ).len()
                &&& error.distinct_count > u32::MAX
                &&& !error.allocation_failed
            },
            Err(BitmapAuditError::Traversal(error)) => marking::<K, V, F, E>(
                *old(resolver),
                roots@,
                Err(error),
            ),
        },
{
    let indexed: IndexedUniverse = match IndexedUniverse::try_build(universe) {
        Ok(indexed) => indexed,
        Err(error) => {
            return Err(BitmapAuditError::Universe(error));
        },
    };
    let seen: HashTable<()> = match mark_roots(roots, resolver) {
        Ok(seen) => seen,
        Err(error) => {
            return Err(BitmapAuditError::Traversal(error));
        },
    };
    let ghost set = table_set(seen);
    let mut reachable: roaring::RoaringBitmap = bitmap_new();
    let mut unreachable: roaring::RoaringBitmap = bitmap_new();
    let mut index: usize = 0;
    while index < indexed.hashes.len()
        invariant
            index <= indexed.hashes.len(),
            indexed.hashes@.len() <= u32::MAX,
            seen.wf(),
            set == table_set(seen),
            forall|b: u32| #[trigger]
                bitmap_set(reachable).contains(b) <==> b < index && set.contains(
                    indexed.hashes@[b as int]@,
                ),
            forall|b: u32| #[trigger]
                bitmap_set(unreachable).contains(b) <==> b < index && !set.contains(
                    indexed.hashes@[b as int]@,
                ),
        decreases indexed.hashes.len() - index,
    {
        if seen.find(&indexed.hashes[index]).is_some() {
            let _new: bool = bitmap_insert(&mut reachable, index as u32);
        } else {
            let _new: bool = bitmap_insert(&mut unreachable, index as u32);
        }
        index = index + 1;
    }
    let audit: BitmapReachabilityAudit = BitmapReachabilityAudit {
        universe: indexed,
        reachable,
        unreachable,
    };
    proof {
        assert(indexes(audit, set));
    }
    Ok(audit)
}

/// An audit lists every hash of its universe on exactly one side.
pub proof fn audit_partitions(
    audit: NodeReachabilityAudit,
    universe: Seq<StructuralHash>,
    seen: Set<Seq<u8>>,
)
    requires
        partitions(audit, universe, seen),
    ensures
        forall|h: Seq<u8>| #[trigger]
            hash_views(universe).contains(h) <==> hash_views(audit.reachable@).contains(h)
                || hash_views(audit.unreachable@).contains(h),
        forall|h: Seq<u8>|
            !(#[trigger] hash_views(audit.reachable@).contains(h) && hash_views(
                audit.unreachable@,
            ).contains(h)),
        hash_views(audit.reachable@).no_duplicates(),
        hash_views(audit.unreachable@).no_duplicates(),
{
    distinct_distinct(universe, seen, true, universe.len());
    distinct_distinct(universe, seen, false, universe.len());
    assert forall|h: Seq<u8>| #[trigger] hash_views(universe).contains(h) <==> hash_views(
        audit.reachable@,
    ).contains(h) || hash_views(audit.unreachable@).contains(h) by {
        distinct_members(universe, seen, true, h, universe.len());
        distinct_members(universe, seen, false, h, universe.len());
        if hash_views(universe).contains(h) {
            let i = choose|i: int|
                0 <= i < universe.len() && hash_views(universe)[i] == h;
            assert(universe[i]@ == h);
        }
        if exists|i: int| 0 <= i < universe.len() && (#[trigger] universe[i])@ == h {
            let i = choose|i: int| 0 <= i < universe.len() && (#[trigger] universe[i])@ == h;
            assert(hash_views(universe)[i] == h);
        }
    }
    assert forall|h: Seq<u8>|
        !(#[trigger] hash_views(audit.reachable@).contains(h) && hash_views(
            audit.unreachable@,
        ).contains(h)) by {
        distinct_members(universe, seen, true, h, universe.len());
        distinct_members(universe, seen, false, h, universe.len());
    }
}

pub proof fn distinct_members(
    universe: Seq<StructuralHash>,
    seen: Set<Seq<u8>>,
    inside: bool,
    h: Seq<u8>,
    n: nat,
)
    requires
        n <= universe.len(),
    ensures
        distinct_where(universe, seen, inside, n).contains(h) <==> seen.contains(h) == inside
            && exists|i: int| 0 <= i < n && (#[trigger] universe[i])@ == h,
    decreases n,
{
    if n > 0 {
        distinct_members(universe, seen, inside, h, (n - 1) as nat);
        let before = distinct_where(universe, seen, inside, (n - 1) as nat);
        pushed_contents(before, universe[n - 1]@);
        if universe[n - 1]@ == h {
            assert(universe[n - 1]@ == h);
        }
    }
}

/// A record in two parts.
proof fn marked_split(before: Set<Seq<u8>>, record: Seq<Marked>, n: int)
    requires
        0 <= n <= record.len(),
        marked_in(before, record),
    ensures
        marked_in(before, record.take(n)),
        marked_in(set_after(before, record.take(n)), record.skip(n)),
        set_after(before, record) == set_after(set_after(before, record.take(n)), record.skip(n)),
    decreases record.len(),
{
    if n == record.len() {
        assert(record.take(n) =~= record);
        assert(record.skip(n) =~= Seq::<Marked>::empty());
    } else {
        let short = record.drop_last();
        marked_split(before, short, n);
        assert(short.take(n) =~= record.take(n));
        assert(record.skip(n).drop_last() =~= short.skip(n));
        assert(record.skip(n).last() == record.last());
    }
}

/// A record of marking in a set marks what is below the first children.
proof fn swept_marks<K, V>(
    load: spec_fn(StructuralHash, HamtNode<K, V>) -> bool,
    graph: spec_fn(Seq<u8>) -> Seq<Seq<u8>>,
    hash: Seq<u8>,
    node: HamtNode<K, V>,
    store: spec_fn(StructuralHash) -> HamtNode<K, V>,
    levels: nat,
    n: nat,
    before: Set<Seq<u8>>,
    record: Seq<Marked>,
)
    requires
        n <= node.children@.len(),
        pictured(graph, hash, node, store, levels),
        swept(load, node, store, levels, n, record),
        marked_in(before, record),
    ensures
        levels > 0,
        marked_upto(graph, hash, n, before, set_after(before, record)),
    decreases levels, n,
{
    if n > 0 {
        let last = n - 1;
        let child = node_at(node.children@[last], store);
        let at = choose|at: int|
            {
                &&& 0 <= at < record.len()
                &&& swept(load, node, store, levels, (n - 1) as nat, #[trigger] record.take(at))
                &&& record[at].hash@ == ref_hash(node.children@[last])
                &&& if record[at].fresh {
                    swept(
                        load,
                        child,
                        store,
                        (levels - 1) as nat,
                        child.children@.len(),
                        record.skip(at + 1),
                    )
                } else {
                    record.len() == at + 1
                }
            };
        let middle = set_after(before, record.take(at));
        let child_hash = record[at].hash@;
        marked_split(before, record, at);
        marked_split(before, record, at + 1);
        marked_split(before, record.take(at + 1), at);
        assert(record.take(at + 1).take(at) =~= record.take(at));
        assert(record.take(at + 1).drop_last() =~= record.take(at));
        let opened = set_after(before, record.take(at + 1));
        assert(opened == middle.insert(child_hash));
        swept_marks(
            load,
            graph,
            hash,
            node,
            store,
            levels,
            (n - 1) as nat,
            before,
            record.take(at),
        );
        assert(graph(hash)[last] == child_hash);
        if record[at].fresh {
            let rest = record.skip(at + 1);
            let after = set_after(opened, rest);
            assert(pictured(graph, child_hash, child, store, (levels - 1) as nat));
            swept_marks(
                load,
                graph,
                child_hash,
                child,
                store,
                (levels - 1) as nat,
                child.children@.len(),
                opened,
                rest,
            );
            assert(graph(child_hash) == ref_hashes(child.children@));
            assert(marked_below(graph, child_hash, opened, after));
            marked_next(graph, hash, last as nat, before, middle, after);
        } else {
            assert(record.take(at + 1) =~= record);
            assert(middle.insert(child_hash) =~= middle);
            marked_seen(graph, hash, last as nat, before, middle);
        }
    }
}

/// The record of walking a root where what is marked goes into a set.
pub open spec fn walked<K, V>(
    load: spec_fn(StructuralHash, HamtNode<K, V>) -> bool,
    store: spec_fn(StructuralHash) -> HamtNode<K, V>,
    root: HamtNode<K, V>,
    before: Set<Seq<u8>>,
    record: Seq<Marked>,
) -> bool {
    marked_in(before, record) && root_swept(load, store, root, record)
}

/// The set with the hashes of several records.
pub open spec fn set_after_all(
    before: Set<Seq<u8>>,
    records: Seq<Seq<Marked>>,
) -> Set<Seq<u8>>
    decreases records.len(),
{
    if records.len() == 0 {
        before
    } else {
        set_after(set_after_all(before, records.drop_last()), records.last())
    }
}

/// Walking one more root adds to the set exactly what that root reaches.
proof fn walk_adds_reached<K, V>(
    load: spec_fn(StructuralHash, HamtNode<K, V>) -> bool,
    graph: spec_fn(Seq<u8>) -> Seq<Seq<u8>>,
    store: spec_fn(StructuralHash) -> HamtNode<K, V>,
    roots: Seq<Arc<HamtNode<K, V>>>,
    root: Arc<HamtNode<K, V>>,
    before: Set<Seq<u8>>,
    record: Seq<Marked>,
)
    requires
        pictured(graph, root.structural_hash@, *root, store, 52),
        reached_exactly(graph, roots, before),
        walked(load, store, *root, before, record),
    ensures
        reached_exactly(graph, roots.push(root), set_after(before, record)),
{
    let hash = root.structural_hash@;
    let more = roots.push(root);
    marked_split(before, record, 1);
    assert(record.take(1).drop_last() =~= Seq::<Marked>::empty());
    assert(set_after(before, Seq::<Marked>::empty()) == before);
    assert(record.take(1).last() == record[0]);
    let opened = before.insert(hash);
    assert(set_after(before, record.take(1)) == opened);
    if record[0].fresh {
        let rest = record.skip(1);
        let after = set_after(opened, rest);
        let tree: &HamtNode<K, V> = &*root;
        swept_marks(
            load,
            graph,
            hash,
            *tree,
            store,
            52,
            root.children@.len(),
            opened,
            rest,
        );
        assert(graph(hash) == ref_hashes(root.children@));
        assert(marked_below(graph, hash, opened, after));
        reached_more(graph, roots, root, before, after);
    } else {
        assert(record.take(1) =~= record);
        assert(opened =~= before);
        assert forall|h: Seq<u8>| #[trigger] before.contains(h) implies reached_from(
            graph,
            more,
            h,
        ) by {
            reached_still(graph, roots, root, h);
        }
        assert forall|i: int| 0 <= i < more.len() implies before.contains(
            (#[trigger] more[i]).structural_hash@,
        ) by {
            if i < roots.len() {
                assert(more[i] == roots[i]);
            }
        }
    }
}

/// Walking roots one after another, where what is marked goes into one set that is
/// empty at first, fills the set with exactly the hashes that the roots reach.
pub proof fn walks_collect_reached<K, V>(
    load: spec_fn(StructuralHash, HamtNode<K, V>) -> bool,
    graph: spec_fn(Seq<u8>) -> Seq<Seq<u8>>,
    store: spec_fn(StructuralHash) -> HamtNode<K, V>,
    roots: Seq<Arc<HamtNode<K, V>>>,
    records: Seq<Seq<Marked>>,
    hash: Seq<u8>,
)
    requires
        pictures(load, graph, store, roots),
        records.len() == roots.len(),
        forall|i: int|
            0 <= i < roots.len() ==> walked(
                load,
                store,
                *(#[trigger] roots[i]),
                set_after_all(Set::empty(), records.take(i)),
                records[i],
            ),
    ensures
        set_after_all(Set::empty(), records).contains(hash) <==> reached_from(graph, roots, hash),
{
    walks_reach(load, graph, store, roots, records);
    let seen = set_after_all(Set::empty(), records);
    if reached_from(graph, roots, hash) {
        let i = choose|i: int|
            0 <= i < roots.len() && descends_to(
                graph,
                (#[trigger] roots[i]).structural_hash@,
                hash,
            );
        let path = choose|path: Seq<Seq<u8>>| #[trigger]
            is_descent(graph, path) && path[0] == roots[i].structural_hash@ && path.last() == hash;
        closed_under_descent(graph, seen, path);
    }
}

proof fn walks_reach<K, V>(
    load: spec_fn(StructuralHash, HamtNode<K, V>) -> bool,
    graph: spec_fn(Seq<u8>) -> Seq<Seq<u8>>,
    store: spec_fn(StructuralHash) -> HamtNode<K, V>,
    roots: Seq<Arc<HamtNode<K, V>>>,
    records: Seq<Seq<Marked>>,
)
    requires
        pictures(load, graph, store, roots),
        records.len() == roots.len(),
        forall|i: int|
            0 <= i < roots.len() ==> walked(
                load,
                store,
                *(#[trigger] roots[i]),
                set_after_all(Set::empty(), records.take(i)),
                records[i],
            ),
    ensures
        reached_exactly(graph, roots, set_after_all(Set::empty(), records)),
    decreases roots.len(),
{
    if roots.len() > 0 {
        let short = roots.drop_last();
        let fewer = records.drop_last();
        let last = roots.len() - 1;
        assert forall|i: int| 0 <= i < short.len() implies loadable(
            load,
            store,
            *(#[trigger] short[i]),
            52,
        ) && pictured(graph, short[i].structural_hash@, *short[i], store, 52) by {
            assert(short[i] == roots[i]);
        }
        assert forall|i: int| 0 <= i < short.len() implies walked(
            load,
            store,
            *(#[trigger] short[i]),
            set_after_all(Set::empty(), fewer.take(i)),
            fewer[i],
        ) by {
            assert(short[i] == roots[i]);
            assert(fewer.take(i) =~= records.take(i));
        }
        walks_reach(load, graph, store, short, fewer);
        assert(fewer =~= records.take(last));
        assert(short.push(roots[last]) =~= roots);
        walk_adds_reached(
            load,
            graph,
            store,
            short,
            roots[last],
            set_after_all(Set::empty(), fewer),
            records[last],
        );
    }
}

/// A hash is new at most once where what is marked goes into a set, and not at
/// all where the set had it before. So it is loaded at most once.
pub proof fn marked_new_once(before: Set<Seq<u8>>, record: Seq<Marked>, i: int, j: int)
    requires
        marked_in(before, record),
        0 <= i < record.len(),
        0 <= j < record.len(),
        record[i].fresh,
        record[j].fresh,
        record[i].hash@ == record[j].hash@,
    ensures
        i == j,
        !before.contains(record[i].hash@),
{
    marked_new(before, record, i);
    marked_new(before, record, j);
    if i < j {
        marked_before(before, record.take(j), i);
    } else if j < i {
        marked_before(before, record.take(i), j);
    }
}

/// What a record marks as new was not in the set in front of it.
proof fn marked_new(before: Set<Seq<u8>>, record: Seq<Marked>, i: int)
    requires
        marked_in(before, record),
        0 <= i < record.len(),
        record[i].fresh,
    ensures
        !set_after(before, record.take(i)).contains(record[i].hash@),
        !before.contains(record[i].hash@),
{
    marked_split(before, record, i + 1);
    assert(record.take(i + 1).drop_last() =~= record.take(i));
    set_grows(before, record.take(i));
}

proof fn set_grows(before: Set<Seq<u8>>, record: Seq<Marked>)
    ensures
        before.subset_of(set_after(before, record)),
    decreases record.len(),
{
    if record.len() > 0 {
        set_grows(before, record.drop_last());
    }
}

proof fn marked_before(before: Set<Seq<u8>>, record: Seq<Marked>, i: int)
    requires
        0 <= i < record.len(),
    ensures
        set_after(before, record).contains(record[i].hash@),
    decreases record.len(),
{
    if i < record.len() - 1 {
        marked_before(before, record.drop_last(), i);
    }
}

} // verus!
