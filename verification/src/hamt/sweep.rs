//! Marking every node that a root reaches.

use std::sync::Arc;
use vstd::prelude::*;
use super::hash::StructuralHash;
use super::node::{loader, node_at, ref_hash, resolver_total, HamtNode, NodeRef, HAMT_MAX_DEPTH};
use super::walk::{
    child_loads, loadable, loads_next, resolve_node, too_deep, HamtTraversalError, Stop,
};

verus! {

/// A hash that was marked, and whether it was new.
pub struct Marked {
    pub hash: StructuralHash,
    pub fresh: bool,
}

/// The record of marking the first children of a node and what is below those
/// that were new: the children in order, each followed by what is below it. A
/// child is loaded where it was new, and only there.
pub open spec fn swept<K, V>(
    load: spec_fn(StructuralHash, HamtNode<K, V>) -> bool,
    node: HamtNode<K, V>,
    store: spec_fn(StructuralHash) -> HamtNode<K, V>,
    levels: nat,
    n: nat,
    record: Seq<Marked>,
) -> bool
    decreases levels, n,
{
    if levels == 0 {
        false
    } else if n == 0 {
        record.len() == 0
    } else {
        let child = node_at(node.children@[n - 1], store);
        exists|at: int|
            {
                &&& 0 <= at < record.len()
                &&& swept(load, node, store, levels, (n - 1) as nat, #[trigger] record.take(at))
                &&& record[at].hash@ == ref_hash(node.children@[n - 1])
                &&& if record[at].fresh {
                    child_loads(load, store, node.children@[n - 1]) && swept(
                        load,
                        child,
                        store,
                        (levels - 1) as nat,
                        child.children@.len(),
                        record.skip(at + 1),
                    )
                } else {
                    record.len() == at + 1
                }
            }
    }
}

/// The record of marking the nodes below a node up to a place where it stops: at
/// a lazy child that was marked as new, before it is loaded, or at a node that is
/// too deep.
pub open spec fn swept_to<K, V>(
    load: spec_fn(StructuralHash, HamtNode<K, V>) -> bool,
    node: HamtNode<K, V>,
    store: spec_fn(StructuralHash) -> HamtNode<K, V>,
    levels: nat,
    stop: Stop,
    record: Seq<Marked>,
) -> bool
    decreases levels,
{
    if levels == 0 {
        stop == Stop::Depth && record.len() == 0
    } else {
        exists|i: int, at: int|
            #![trigger node.children@[i], record.take(at)]
            {
                &&& 0 <= i < node.children@.len()
                &&& 0 <= at < record.len()
                &&& swept(load, node, store, levels, i as nat, record.take(at))
                &&& record[at].hash@ == ref_hash(node.children@[i])
                &&& record[at].fresh
                &&& {
                    ||| loads_next(node.children@[i], stop) && record.len() == at + 1
                    ||| child_loads(load, store, node.children@[i]) && swept_to(
                        load,
                        node_at(node.children@[i], store),
                        store,
                        (levels - 1) as nat,
                        stop,
                        record.skip(at + 1),
                    )
                }
            }
    }
}

/// The marking function gave the answers of the record.
pub open spec fn marks<M>(mark: M, record: Seq<Marked>) -> bool where
    M: FnMut(StructuralHash) -> bool,
 {
    forall|i: int|
        0 <= i < record.len() ==> call_ensures(
            mark,
            ((#[trigger] record[i]).hash,),
            record[i].fresh,
        )
}

/// Any hash can be marked.
pub open spec fn mark_total<M>(mark: M) -> bool where M: FnMut(StructuralHash) -> bool {
    forall|hash: StructuralHash| #[trigger] call_requires(mark, (hash,))
}

/// A record continued by a child.
pub(crate) proof fn swept_next<K, V>(
    load: spec_fn(StructuralHash, HamtNode<K, V>) -> bool,
    node: HamtNode<K, V>,
    store: spec_fn(StructuralHash) -> HamtNode<K, V>,
    levels: nat,
    n: nat,
    before: Seq<Marked>,
    item: Marked,
    below: Seq<Marked>,
)
    requires
        levels > 0,
        swept(load, node, store, levels, n, before),
        item.hash@ == ref_hash(node.children@[n as int]),
        if item.fresh {
            let child = node_at(node.children@[n as int], store);
            child_loads(load, store, node.children@[n as int]) && swept(
                load,
                child,
                store,
                (levels - 1) as nat,
                child.children@.len(),
                below,
            )
        } else {
            below.len() == 0
        },
    ensures
        swept(load, node, store, levels, n + 1, before + seq![item] + below),
{
    let record = before + seq![item] + below;
    let at = before.len() as int;
    assert(record.take(at) =~= before);
    assert(record.skip(at + 1) =~= below);
    assert(swept(load, node, store, levels, n, record.take(at)));
}

/// A record that stops at a child or below it.
pub(crate) proof fn swept_to_next<K, V>(
    load: spec_fn(StructuralHash, HamtNode<K, V>) -> bool,
    node: HamtNode<K, V>,
    store: spec_fn(StructuralHash) -> HamtNode<K, V>,
    levels: nat,
    n: nat,
    stop: Stop,
    before: Seq<Marked>,
    item: Marked,
    below: Seq<Marked>,
)
    requires
        levels > 0,
        n < node.children@.len(),
        swept(load, node, store, levels, n, before),
        item.hash@ == ref_hash(node.children@[n as int]),
        item.fresh,
        loads_next(node.children@[n as int], stop) && below.len() == 0 || child_loads(
            load,
            store,
            node.children@[n as int],
        ) && swept_to(
            load,
            node_at(node.children@[n as int], store),
            store,
            (levels - 1) as nat,
            stop,
            below,
        ),
    ensures
        swept_to(load, node, store, levels, stop, before + seq![item] + below),
{
    let record = before + seq![item] + below;
    let at = before.len() as int;
    assert(record.take(at) =~= before);
    assert(record.skip(at + 1) =~= below);
    assert(node.children@[n as int] == node.children@[n as int]);
    assert(swept(load, node, store, levels, n, record.take(at)));
}

/// Walks the children of a node, checking the hash of each against `mark`
/// before resolving it: a shared subtree that was marked before is skipped
/// without being loaded.
fn walk_reachable_children<K, V, F, E, M>(
    node: &Arc<HamtNode<K, V>>,
    resolver: &mut F,
    mark: &mut M,
    depth: usize,
) -> (result: Result<(), HamtTraversalError<E>>) where
    F: FnMut(&StructuralHash) -> Result<Arc<HamtNode<K, V>>, E>,
    M: FnMut(StructuralHash) -> bool,

    requires
        depth <= 52,
        resolver_total::<K, V, E, F>(*old(resolver)),
        mark_total::<M>(*old(mark)),
    ensures
        *final(resolver) == *old(resolver),
        *final(mark) == *old(mark),
        sweep_outcome::<K, V, F, E, M>(
            *old(resolver),
            *old(mark),
            **node,
            (52 - depth) as nat,
            result,
        ),
    decreases 52 - depth,
{
    let tree: &HamtNode<K, V> = &**node;
    if depth >= HAMT_MAX_DEPTH {
        proof {
            assert(sweep_stops(
                loader::<K, V, E, F>(*resolver),
                *mark,
                *tree,
                0,
                Stop::Depth,
                Seq::empty(),
            ));
        }
        return Err(HamtTraversalError::MaxDepthExceeded { depth });
    }
    let ghost levels = (52 - depth) as nat;
    let ghost load = loader::<K, V, E, F>(*resolver);
    let ghost mut record: Seq<Marked> = Seq::empty();
    let mut place: usize = 0;
    while place < tree.children.len()
        invariant
            place <= tree.children.len(),
            depth < 52,
            levels == 52 - depth,
            *tree == **node,
            *resolver == *old(resolver),
            *mark == *old(mark),
            load == loader::<K, V, E, F>(*resolver),
            resolver_total::<K, V, E, F>(*resolver),
            mark_total::<M>(*mark),
            marks::<M>(*mark, record),
            forall|store: spec_fn(StructuralHash) -> HamtNode<K, V>| #[trigger]
                loadable(load, store, *tree, levels) ==> swept(
                    load,
                    *tree,
                    store,
                    levels,
                    place as nat,
                    record,
                ),
        decreases tree.children.len() - place,
    {
        let child_ref: &NodeRef<K, V> = &tree.children[place];
        let hash: StructuralHash = child_ref.structural_hash();
        let fresh: bool = mark(hash);
        let ghost item = Marked { hash, fresh };
        if !fresh {
            proof {
                assert forall|store: spec_fn(StructuralHash) -> HamtNode<K, V>| #[trigger]
                    loadable(load, store, *tree, levels) implies swept(
                    load,
                    *tree,
                    store,
                    levels,
                    (place + 1) as nat,
                    record + seq![item] + Seq::empty(),
                ) by {
                    swept_next(
                        load,
                        *tree,
                        store,
                        levels,
                        place as nat,
                        record,
                        item,
                        Seq::empty(),
                    );
                }
                record = record + seq![item] + Seq::empty();
            }
        } else {
            let child: Arc<HamtNode<K, V>> = match resolve_node(child_ref, resolver) {
                Ok(node) => node,
                Err(error) => {
                    proof {
                        let lazy = child_ref->Lazy_0;
                        let stop = Stop::Load(lazy);
                        let until = record + seq![item] + Seq::<Marked>::empty();
                        assert(tree.children@[place as int] == NodeRef::<K, V>::Lazy(lazy));
                        assert forall|store: spec_fn(StructuralHash) -> HamtNode<K, V>| #[trigger]
                            loadable(load, store, *tree, levels) implies swept_to(
                            load,
                            *tree,
                            store,
                            levels,
                            stop,
                            until,
                        ) by {
                            swept_to_next(
                                load,
                                *tree,
                                store,
                                levels,
                                place as nat,
                                stop,
                                record,
                                item,
                                Seq::empty(),
                            );
                        }
                        assert(sweep_stops(load, *mark, *tree, levels, stop, until));
                    }
                    return Err(HamtTraversalError::Resolve(error));
                },
            };
            let loaded: &HamtNode<K, V> = &*child;
            let below: Result<(), HamtTraversalError<E>> = walk_reachable_children(
                &child,
                resolver,
                mark,
                depth + 1,
            );
            proof {
                assert forall|store: spec_fn(StructuralHash) -> HamtNode<K, V>| #[trigger]
                    loadable(load, store, *tree, levels) implies loadable(
                    load,
                    store,
                    *child,
                    (52 - (depth + 1)) as nat,
                ) && *child == node_at(tree.children@[place as int], store) && (too_deep(
                    *child,
                    store,
                    (52 - (depth + 1)) as nat,
                ) ==> too_deep(*tree, store, levels)) by {
                    assert(tree.children@[place as int] == *child_ref);
                }
            }
            match below {
                Ok(_) => {
                    proof {
                        let rest = choose|rest: Seq<Marked>| #[trigger]
                            marks::<M>(*mark, rest) && forall|
                                store: spec_fn(StructuralHash) -> HamtNode<K, V>,
                            | #[trigger]
                                loadable(load, store, *child, (52 - (depth + 1)) as nat) ==> swept(
                                    load,
                                    *child,
                                    store,
                                    (52 - (depth + 1)) as nat,
                                    child.children@.len(),
                                    rest,
                                );
                        assert forall|store: spec_fn(StructuralHash) -> HamtNode<K, V>| #[trigger]
                            loadable(load, store, *tree, levels) implies swept(
                            load,
                            *tree,
                            store,
                            levels,
                            (place + 1) as nat,
                            record + seq![item] + rest,
                        ) by {
                            assert(loadable(load, store, *child, (52 - (depth + 1)) as nat));
                            swept_next(
                                load,
                                *tree,
                                store,
                                levels,
                                place as nat,
                                record,
                                item,
                                rest,
                            );
                        }
                        record = record + seq![item] + rest;
                    }
                },
                Err(error) => {
                    proof {
                        let below_levels = (52 - (depth + 1)) as nat;
                        let (stop, rest) = if error is Resolve {
                            let (h, rest) = choose|h: StructuralHash, rest: Seq<Marked>| #[trigger]
                                sweep_stops(
                                    load,
                                    *mark,
                                    *loaded,
                                    below_levels,
                                    Stop::Load(h),
                                    rest,
                                ) && call_ensures(
                                    *resolver,
                                    (&h,),
                                    Err::<Arc<HamtNode<K, V>>, E>(error->Resolve_0),
                                );
                            (Stop::Load(h), rest)
                        } else {
                            let rest = choose|rest: Seq<Marked>| #[trigger]
                                sweep_stops(
                                    load,
                                    *mark,
                                    *loaded,
                                    below_levels,
                                    Stop::Depth,
                                    rest,
                                );
                            (Stop::Depth, rest)
                        };
                        let until = record + seq![item] + rest;
                        assert forall|store: spec_fn(StructuralHash) -> HamtNode<K, V>| #[trigger]
                            loadable(load, store, *tree, levels) implies swept_to(
                            load,
                            *tree,
                            store,
                            levels,
                            stop,
                            until,
                        ) by {
                            assert(loadable(load, store, *loaded, below_levels));
                            swept_to_next(
                                load,
                                *tree,
                                store,
                                levels,
                                place as nat,
                                stop,
                                record,
                                item,
                                rest,
                            );
                        }
                        assert(sweep_stops(load, *mark, *tree, levels, stop, until));
                    }
                    return Err(error);
                },
            }
        }
        place = place + 1;
    }
    Ok(())
}

/// What marking the nodes below a node does: every node is marked that is
/// reached through new ones, and nothing else is loaded.
pub open spec fn sweep_outcome<K, V, F, E, M>(
    resolver: F,
    mark: M,
    node: HamtNode<K, V>,
    levels: nat,
    result: Result<(), HamtTraversalError<E>>,
) -> bool where
    F: FnMut(&StructuralHash) -> Result<Arc<HamtNode<K, V>>, E>,
    M: FnMut(StructuralHash) -> bool,
 {
    let load = loader::<K, V, E, F>(resolver);
    match result {
        Ok(_) => exists|record: Seq<Marked>| #[trigger]
            marks::<M>(mark, record) && forall|store: spec_fn(StructuralHash) -> HamtNode<K, V>|
             #[trigger]
                loadable(load, store, node, levels) ==> swept(
                    load,
                    node,
                    store,
                    levels,
                    node.children@.len(),
                    record,
                ),
        Err(HamtTraversalError::Resolve(error)) => exists|
            hash: StructuralHash,
            record: Seq<Marked>,
        | #[trigger]
            sweep_stops(load, mark, node, levels, Stop::Load(hash), record) && call_ensures(
                resolver,
                (&hash,),
                Err::<Arc<HamtNode<K, V>>, E>(error),
            ),
        Err(HamtTraversalError::MaxDepthExceeded { depth }) => {
            &&& depth == 52
            &&& exists|record: Seq<Marked>| #[trigger]
                sweep_stops(load, mark, node, levels, Stop::Depth, record)
            &&& forall|store: spec_fn(StructuralHash) -> HamtNode<K, V>| #[trigger]
                loadable(load, store, node, levels) ==> too_deep(node, store, levels)
        },
    }
}

/// The marking function gave the answers of a record that stops somewhere.
pub open spec fn sweep_stops<K, V, M>(
    load: spec_fn(StructuralHash, HamtNode<K, V>) -> bool,
    mark: M,
    node: HamtNode<K, V>,
    levels: nat,
    stop: Stop,
    record: Seq<Marked>,
) -> bool where M: FnMut(StructuralHash) -> bool {
    &&& marks::<M>(mark, record)
    &&& forall|store: spec_fn(StructuralHash) -> HamtNode<K, V>| #[trigger]
        loadable(load, store, node, levels) ==> swept_to(load, node, store, levels, stop, record)
}

/// The record of walking a root: the root first, and what is below it where it was
/// new.
pub open spec fn root_swept<K, V>(
    load: spec_fn(StructuralHash, HamtNode<K, V>) -> bool,
    store: spec_fn(StructuralHash) -> HamtNode<K, V>,
    root: HamtNode<K, V>,
    record: Seq<Marked>,
) -> bool {
    &&& record.len() > 0
    &&& record[0].hash == root.structural_hash
    &&& if record[0].fresh {
        swept(load, root, store, 52, root.children@.len(), record.skip(1))
    } else {
        record.len() == 1
    }
}

/// Walks the internal-node reachability graph of `root`, calling `mark` on
/// every node hash encountered and skipping recursion into any subtree whose
/// hash `mark` reports as already seen.
///
/// Built for sweeping reachability across many roots that share most of their
/// structure: call this once per root against the same `mark` closure backed
/// by one shared set, and every subtree already accounted for by an earlier
/// root is skipped without being loaded or walked again.
///
/// `mark(hash)` must record `hash` as seen and return `true` if it was not
/// there before.
///
/// # Errors
/// Returns `HamtTraversalError::Resolve` if `resolver` fails, or
/// `HamtTraversalError::MaxDepthExceeded` if the walk recurses past the deepest
/// depth a legitimately built trie can have. On either error `mark` may already
/// have recorded hashes whose descendants were never marked, so the set must
/// not be used again after an error.
pub fn walk_reachable_node_hashes<K, V, F, E, M>(
    root: &Arc<HamtNode<K, V>>,
    resolver: &mut F,
    mark: &mut M,
) -> (result: Result<(), HamtTraversalError<E>>) where
    F: FnMut(&StructuralHash) -> Result<Arc<HamtNode<K, V>>, E>,
    M: FnMut(StructuralHash) -> bool,

    requires
        resolver_total::<K, V, E, F>(*old(resolver)),
        mark_total::<M>(*old(mark)),
    ensures
        *final(resolver) == *old(resolver),
        *final(mark) == *old(mark),
        exists|fresh: bool|
            {
                &&& #[trigger] call_ensures(*old(mark), (root.structural_hash,), fresh)
                &&& if fresh {
                    sweep_outcome::<K, V, F, E, M>(
                        *old(resolver),
                        *old(mark),
                        **root,
                        52,
                        result,
                    )
                } else {
                    result is Ok
                }
            },
        result is Ok ==> exists|record: Seq<Marked>| #[trigger]
            marks::<M>(*old(mark), record) && forall|
                store: spec_fn(StructuralHash) -> HamtNode<K, V>,
            | #[trigger]
                loadable(loader::<K, V, E, F>(*old(resolver)), store, **root, 52) ==> root_swept(
                    loader::<K, V, E, F>(*old(resolver)),
                    store,
                    **root,
                    record,
                ),
{
    let tree: &HamtNode<K, V> = &**root;
    let ghost load = loader::<K, V, E, F>(*resolver);
    let fresh: bool = mark(root.structural_hash);
    let ghost first = seq![Marked { hash: root.structural_hash, fresh }];
    if !fresh {
        proof {
            assert(marks::<M>(*mark, first));
            assert forall|store: spec_fn(StructuralHash) -> HamtNode<K, V>| #[trigger]
                loadable(load, store, *tree, 52) implies root_swept(
                load,
                store,
                *tree,
                first,
            ) by {}
        }
        return Ok(());
    }
    let result: Result<(), HamtTraversalError<E>> = walk_reachable_children(
        root,
        resolver,
        mark,
        0,
    );
    proof {
        if result is Ok {
            assert((52 - 0usize) as nat == 52nat);
            let below = choose|below: Seq<Marked>| #[trigger]
                marks::<M>(*mark, below) && forall|
                    store: spec_fn(StructuralHash) -> HamtNode<K, V>,
                | #[trigger]
                    loadable(load, store, *tree, 52) ==> swept(
                        load,
                        *tree,
                        store,
                        52,
                        tree.children@.len(),
                        below,
                    );
            let record = first + below;
            assert(record.skip(1) =~= below);
            assert(marks::<M>(*mark, record)) by {
                assert forall|i: int| 0 <= i < record.len() implies call_ensures(
                    *mark,
                    ((#[trigger] record[i]).hash,),
                    record[i].fresh,
                ) by {
                    if i > 0 {
                        assert(record[i] == below[i - 1]);
                    }
                }
            }
            assert forall|store: spec_fn(StructuralHash) -> HamtNode<K, V>| #[trigger]
                loadable(load, store, *tree, 52) implies root_swept(
                load,
                store,
                *tree,
                record,
            ) by {}
        }
    }
    result
}

} // verus!
