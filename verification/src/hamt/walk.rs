//! Walking over every entry of a trie.

use std::sync::Arc;
use vstd::prelude::*;
use super::codec::HamtCodec;
use super::hash::StructuralHash;
use super::node::{loader, node_at, resolver_total, HamtNode, NodeRef, HAMT_MAX_DEPTH};
use super::read::clone_keeps;

verus! {

/// Error returned by the traversal helpers: either the caller-supplied
/// resolver failed, or the walk went deeper than any trie that is built here
/// can be.
///
/// A resolver reading from a store can be handed corrupted data, such as a
/// node whose children chain far deeper than routing hashes reach, or, in the
/// limit, a cycle. The bound turns that into an ordinary error.
#[derive(Clone, Debug, PartialEq, Eq)]
pub enum HamtTraversalError<E> {
    /// The resolver failed to load a lazy child the walk needed to descend
    /// into.
    Resolve(E),
    /// The walk recursed past the deepest depth a legitimately built trie can
    /// have, which only happens against corrupted node data.
    MaxDepthExceeded { depth: usize },
}

/// Whatever can be loaded for a lazy child, down to some level, is what the
/// store holds.
pub open spec fn loadable<K, V>(
    load: spec_fn(StructuralHash, HamtNode<K, V>) -> bool,
    store: spec_fn(StructuralHash) -> HamtNode<K, V>,
    node: HamtNode<K, V>,
    levels: nat,
) -> bool
    decreases levels,
{
    levels > 0 ==> forall|i: int|
        0 <= i < node.children@.len() ==> {
            &&& (#[trigger] node.children@[i]) matches NodeRef::Lazy(h) ==> forall|
                n: HamtNode<K, V>,
            | #[trigger]
                load(h, n) ==> n == store(h)
            &&& loadable(load, store, node_at(node.children@[i], store), (levels - 1) as nat)
        }
}

/// A chain of children leads down as many levels.
pub open spec fn too_deep<K, V>(
    node: HamtNode<K, V>,
    store: spec_fn(StructuralHash) -> HamtNode<K, V>,
    levels: nat,
) -> bool
    decreases levels,
{
    levels == 0 || exists|i: int|
        0 <= i < node.children@.len() && too_deep(
            node_at(#[trigger] node.children@[i], store),
            store,
            (levels - 1) as nat,
        )
}

/// A child that has to be loaded is loaded as the node of the store.
pub open spec fn child_loads<K, V>(
    load: spec_fn(StructuralHash, HamtNode<K, V>) -> bool,
    store: spec_fn(StructuralHash) -> HamtNode<K, V>,
    child: NodeRef<K, V>,
) -> bool {
    child matches NodeRef::Lazy(h) ==> load(h, store(h))
}

/// The first children, and everything below them, are loaded.
pub open spec fn loaded_upto<K, V>(
    load: spec_fn(StructuralHash, HamtNode<K, V>) -> bool,
    store: spec_fn(StructuralHash) -> HamtNode<K, V>,
    node: HamtNode<K, V>,
    levels: nat,
    n: nat,
) -> bool
    decreases levels,
{
    levels > 0 ==> forall|i: int|
        0 <= i < n && i < node.children@.len() ==> {
            let child = node_at(#[trigger] node.children@[i], store);
            &&& child_loads(load, store, node.children@[i])
            &&& loaded_upto(load, store, child, (levels - 1) as nat, child.children@.len())
        }
}

/// Everything below the node is loaded.
pub open spec fn all_loaded<K, V>(
    load: spec_fn(StructuralHash, HamtNode<K, V>) -> bool,
    store: spec_fn(StructuralHash) -> HamtNode<K, V>,
    node: HamtNode<K, V>,
    levels: nat,
) -> bool {
    loaded_upto(load, store, node, levels, node.children@.len())
}

/// Where a walk stops.
pub enum Stop {
    /// At an entry.
    Entry,
    /// At a lazy child with this hash, before it is loaded.
    Load(StructuralHash),
    /// At a node that is too deep.
    Depth,
}

/// The child is the one to be loaded next.
pub open spec fn loads_next<K, V>(child: NodeRef<K, V>, stop: Stop) -> bool {
    child matches NodeRef::Lazy(h) && stop == Stop::Load(h)
}

/// A walk gets as far as a place of the entries of the node: what comes before
/// has been loaded.
pub open spec fn stops<K, V>(
    load: spec_fn(StructuralHash, HamtNode<K, V>) -> bool,
    store: spec_fn(StructuralHash) -> HamtNode<K, V>,
    node: HamtNode<K, V>,
    levels: nat,
    stop: Stop,
    at: int,
) -> bool
    decreases levels,
{
    if levels == 0 {
        stop == Stop::Depth && at == 0
    } else {
        ||| stop == Stop::Entry && 0 <= at < node.leaves@.len()
        ||| exists|i: int|
            {
                &&& 0 <= i < node.children@.len()
                &&& loaded_upto(load, store, node, levels, i as nat)
                &&& {
                    let start = entries_upto(node, store, levels, i as nat).len();
                    ||| (#[trigger] node.children@[i]) matches NodeRef::Lazy(h) && stop
                        == Stop::Load(h) && at == start
                    ||| child_loads(load, store, node.children@[i]) && stops(
                        load,
                        store,
                        node_at(node.children@[i], store),
                        (levels - 1) as nat,
                        stop,
                        at - start,
                    )
                }
            }
    }
}

/// The resolver may fail with the error for the lazy child that a walk comes to
/// next.
pub open spec fn load_fails<K, V, E, F>(
    resolver: F,
    node: HamtNode<K, V>,
    store: spec_fn(StructuralHash) -> HamtNode<K, V>,
    levels: nat,
    error: E,
) -> bool where F: FnMut(&StructuralHash) -> Result<Arc<HamtNode<K, V>>, E> {
    exists|hash: StructuralHash, at: int| #[trigger]
        stops(
            loader::<K, V, E, F>(resolver),
            store,
            node,
            levels,
            Stop::Load(hash),
            at,
        ) && call_ensures(resolver, (&hash,), Err::<Arc<HamtNode<K, V>>, E>(error))
}

/// A walk comes to a node that is too deep.
pub open spec fn gets_too_deep<K, V>(
    load: spec_fn(StructuralHash, HamtNode<K, V>) -> bool,
    store: spec_fn(StructuralHash) -> HamtNode<K, V>,
    node: HamtNode<K, V>,
    levels: nat,
) -> bool {
    &&& too_deep(node, store, levels)
    &&& exists|at: int| #[trigger] stops(load, store, node, levels, Stop::Depth, at)
}

/// A walk that stops below a child stops below the node.
pub(crate) proof fn stops_below<K, V>(
    load: spec_fn(StructuralHash, HamtNode<K, V>) -> bool,
    store: spec_fn(StructuralHash) -> HamtNode<K, V>,
    node: HamtNode<K, V>,
    levels: nat,
    n: int,
    stop: Stop,
    at: int,
)
    requires
        levels > 0,
        0 <= n < node.children@.len(),
        loaded_upto(load, store, node, levels, n as nat),
        child_loads(load, store, node.children@[n]),
        stops(load, store, node_at(node.children@[n], store), (levels - 1) as nat, stop, at),
    ensures
        stops(
            load,
            store,
            node,
            levels,
            stop,
            entries_upto(node, store, levels, n as nat).len() + at,
        ),
{
    assert(node.children@[n] == node.children@[n]);
}

/// A child that cannot be loaded.
pub(crate) proof fn load_fails_at<K, V, E, F>(
    resolver: F,
    node: HamtNode<K, V>,
    store: spec_fn(StructuralHash) -> HamtNode<K, V>,
    levels: nat,
    i: int,
    error: E,
) where F: FnMut(&StructuralHash) -> Result<Arc<HamtNode<K, V>>, E>
    requires
        levels > 0,
        0 <= i < node.children@.len(),
        loaded_upto(loader::<K, V, E, F>(resolver), store, node, levels, i as nat),
        node.children@[i] is Lazy,
        call_ensures(
            resolver,
            (&node.children@[i]->Lazy_0,),
            Err::<Arc<HamtNode<K, V>>, E>(error),
        ),
    ensures
        load_fails::<K, V, E, F>(resolver, node, store, levels, error),
{
    let hash = node.children@[i]->Lazy_0;
    assert(node.children@[i] == NodeRef::<K, V>::Lazy(hash));
    assert(stops(
        loader::<K, V, E, F>(resolver),
        store,
        node,
        levels,
        Stop::Load(hash),
        entries_upto(node, store, levels, i as nat).len() as int,
    ));
}

/// A node below that cannot be loaded.
pub(crate) proof fn load_fails_below<K, V, E, F>(
    resolver: F,
    node: HamtNode<K, V>,
    store: spec_fn(StructuralHash) -> HamtNode<K, V>,
    levels: nat,
    i: int,
    error: E,
) where F: FnMut(&StructuralHash) -> Result<Arc<HamtNode<K, V>>, E>
    requires
        levels > 0,
        0 <= i < node.children@.len(),
        loaded_upto(loader::<K, V, E, F>(resolver), store, node, levels, i as nat),
        child_loads(loader::<K, V, E, F>(resolver), store, node.children@[i]),
        load_fails::<K, V, E, F>(
            resolver,
            node_at(node.children@[i], store),
            store,
            (levels - 1) as nat,
            error,
        ),
    ensures
        load_fails::<K, V, E, F>(resolver, node, store, levels, error),
{
    let child = node_at(node.children@[i], store);
    let load = loader::<K, V, E, F>(resolver);
    let (hash, at) = choose|hash: StructuralHash, at: int| #[trigger]
        stops(load, store, child, (levels - 1) as nat, Stop::Load(hash), at) && call_ensures(
            resolver,
            (&hash,),
            Err::<Arc<HamtNode<K, V>>, E>(error),
        );
    stops_below(load, store, node, levels, i, Stop::Load(hash), at);
}

/// A walk that gets too deep below a child gets too deep below the node.
pub(crate) proof fn too_deep_below<K, V>(
    load: spec_fn(StructuralHash, HamtNode<K, V>) -> bool,
    store: spec_fn(StructuralHash) -> HamtNode<K, V>,
    node: HamtNode<K, V>,
    levels: nat,
    i: int,
)
    requires
        levels > 0,
        0 <= i < node.children@.len(),
        loaded_upto(load, store, node, levels, i as nat),
        child_loads(load, store, node.children@[i]),
        gets_too_deep(load, store, node_at(node.children@[i], store), (levels - 1) as nat),
    ensures
        gets_too_deep(load, store, node, levels),
{
    let child = node_at(node.children@[i], store);
    let at = choose|at: int| #[trigger]
        stops(load, store, child, (levels - 1) as nat, Stop::Depth, at);
    stops_below(load, store, node, levels, i, Stop::Depth, at);
}

/// The leaves of a node, followed by the entries of its first children.
pub open spec fn entries_upto<K, V>(
    node: HamtNode<K, V>,
    store: spec_fn(StructuralHash) -> HamtNode<K, V>,
    levels: nat,
    n: nat,
) -> Seq<(K, V)>
    decreases levels, n,
{
    if levels == 0 {
        Seq::empty()
    } else if n == 0 {
        node.leaves@
    } else {
        let child = node_at(node.children@[n - 1], store);
        entries_upto(node, store, levels, (n - 1) as nat) + entries_upto(
            child,
            store,
            (levels - 1) as nat,
            child.children@.len(),
        )
    }
}

/// The entries of a trie in the order of a walk, down to some level: the
/// leaves of a node before those of its children.
pub open spec fn entry_list<K, V>(
    node: HamtNode<K, V>,
    store: spec_fn(StructuralHash) -> HamtNode<K, V>,
    levels: nat,
) -> Seq<(K, V)> {
    entries_upto(node, store, levels, node.children@.len())
}

/// The entries of the first children come first.
pub proof fn entries_prefix<K, V>(
    node: HamtNode<K, V>,
    store: spec_fn(StructuralHash) -> HamtNode<K, V>,
    levels: nat,
    n: nat,
    m: nat,
)
    requires
        n <= m,
    ensures
        entries_upto(node, store, levels, n).is_prefix_of(entries_upto(node, store, levels, m)),
    decreases m,
{
    if n < m {
        entries_prefix(node, store, levels, n, (m - 1) as nat);
    }
}

/// A predicate can be asked about any entry.
pub open spec fn predicate_total<K, V, T, E, P>(predicate: P) -> bool where
    P: FnMut(&K, &V) -> Result<T, E>,
 {
    forall|key: &K, value: &V| #[trigger] call_requires(predicate, (key, value))
}

/// The predicate may answer for an entry.
pub open spec fn answers<K, V, T, E, P>(predicate: P, entry: (K, V), answer: Result<T, E>) -> bool where
    P: FnMut(&K, &V) -> Result<T, E>,
 {
    call_ensures(predicate, (&entry.0, &entry.1), answer)
}

/// The predicate answers the same for the first entries.
pub open spec fn all_answer<K, V, T, E, P>(
    predicate: P,
    entries: Seq<(K, V)>,
    n: int,
    answer: T,
) -> bool where P: FnMut(&K, &V) -> Result<T, E> {
    forall|i: int|
        0 <= i < n ==> answers::<K, V, T, E, P>(predicate, #[trigger] entries[i], Ok(answer))
}

/// A walk gets as far as a place of the entries, and the predicate lets every
/// entry in front of it pass.
pub open spec fn passes_to<K, V, T, F, E, P>(
    resolver: F,
    predicate: P,
    node: HamtNode<K, V>,
    store: spec_fn(StructuralHash) -> HamtNode<K, V>,
    levels: nat,
    pass: T,
    stop: Stop,
    at: int,
) -> bool where
    F: FnMut(&StructuralHash) -> Result<Arc<HamtNode<K, V>>, E>,
    P: FnMut(&K, &V) -> Result<T, E>,
 {
    &&& stops(loader::<K, V, E, F>(resolver), store, node, levels, stop, at)
    &&& 0 <= at <= entry_list(node, store, levels).len()
    &&& stop == Stop::Entry ==> at < entry_list(node, store, levels).len()
    &&& all_answer::<K, V, T, E, P>(predicate, entry_list(node, store, levels), at, pass)
}

/// The predicate lets every entry pass, and everything is loaded.
pub open spec fn all_pass<K, V, T, F, E, P>(
    resolver: F,
    predicate: P,
    node: HamtNode<K, V>,
    store: spec_fn(StructuralHash) -> HamtNode<K, V>,
    levels: nat,
    pass: T,
) -> bool where
    F: FnMut(&StructuralHash) -> Result<Arc<HamtNode<K, V>>, E>,
    P: FnMut(&K, &V) -> Result<T, E>,
 {
    let entries = entry_list(node, store, levels);
    &&& all_answer::<K, V, T, E, P>(predicate, entries, entries.len() as int, pass)
    &&& all_loaded(loader::<K, V, E, F>(resolver), store, node, levels)
}

/// The error is that of the first call that fails: of the predicate on an entry
/// or of the resolver on a lazy child, after everything in front of it went well.
pub open spec fn first_failure<K, V, T, F, E, P>(
    resolver: F,
    predicate: P,
    node: HamtNode<K, V>,
    store: spec_fn(StructuralHash) -> HamtNode<K, V>,
    levels: nat,
    pass: T,
    error: E,
) -> bool where
    F: FnMut(&StructuralHash) -> Result<Arc<HamtNode<K, V>>, E>,
    P: FnMut(&K, &V) -> Result<T, E>,
 {
    exists|stop: Stop, at: int| #[trigger]
        passes_to::<K, V, T, F, E, P>(
            resolver,
            predicate,
            node,
            store,
            levels,
            pass,
            stop,
            at,
        ) && match stop {
            Stop::Entry => answers::<K, V, T, E, P>(
                predicate,
                entry_list(node, store, levels)[at],
                Err::<T, E>(error),
            ),
            Stop::Load(hash) => call_ensures(
                resolver,
                (&hash,),
                Err::<Arc<HamtNode<K, V>>, E>(error),
            ),
            Stop::Depth => false,
        }
}

/// The first entry that the predicate accepts, with everything in front of it
/// loaded and let pass.
pub open spec fn first_match<K, V, F, E, P>(
    resolver: F,
    predicate: P,
    node: HamtNode<K, V>,
    store: spec_fn(StructuralHash) -> HamtNode<K, V>,
    levels: nat,
    at: int,
) -> bool where
    F: FnMut(&StructuralHash) -> Result<Arc<HamtNode<K, V>>, E>,
    P: FnMut(&K, &V) -> Result<bool, E>,
 {
    &&& passes_to::<K, V, bool, F, E, P>(
        resolver,
        predicate,
        node,
        store,
        levels,
        false,
        Stop::Entry,
        at,
    )
    &&& answers::<K, V, bool, E, P>(predicate, entry_list(node, store, levels)[at], Ok(true))
}

/// The walk gets too deep, after everything in front of that place went well.
pub open spec fn depth_stops<K, V, T, F, E, P>(
    resolver: F,
    predicate: P,
    node: HamtNode<K, V>,
    store: spec_fn(StructuralHash) -> HamtNode<K, V>,
    levels: nat,
    pass: T,
) -> bool where
    F: FnMut(&StructuralHash) -> Result<Arc<HamtNode<K, V>>, E>,
    P: FnMut(&K, &V) -> Result<T, E>,
 {
    &&& too_deep(node, store, levels)
    &&& exists|at: int| #[trigger]
        passes_to::<K, V, T, F, E, P>(
            resolver,
            predicate,
            node,
            store,
            levels,
            pass,
            Stop::Depth,
            at,
        )
}

/// The entry at a place has the encodings of a copy.
pub open spec fn entry_copied<K: HamtCodec, V: HamtCodec>(
    entries: Seq<(K, V)>,
    at: int,
    copy: (K, V),
) -> bool {
    &&& copy.0.encoding() == entries[at].0.encoding()
    &&& copy.1.encoding() == entries[at].1.encoding()
}

/// What a search for the first accepted entry finds.
pub open spec fn find_outcome<K: HamtCodec, V: HamtCodec, F, E, P>(
    resolver: F,
    predicate: P,
    node: HamtNode<K, V>,
    levels: nat,
    found: Result<Option<(K, V)>, HamtTraversalError<E>>,
) -> bool where
    F: FnMut(&StructuralHash) -> Result<Arc<HamtNode<K, V>>, E>,
    P: FnMut(&K, &V) -> Result<bool, E>,
 {
    &&& any_outcome::<K, V, F, E, P>(
        resolver,
        predicate,
        node,
        levels,
        match found {
            Ok(entry) => Ok(entry is Some),
            Err(error) => Err(error),
        },
    )
    &&& found matches Ok(Some(copy)) ==> forall|
        store: spec_fn(StructuralHash) -> HamtNode<K, V>,
    | #[trigger]
        loadable(loader::<K, V, E, F>(resolver), store, node, levels) ==> exists|at: int|
         #[trigger]
            first_match::<K, V, F, E, P>(resolver, predicate, node, store, levels, at)
                && entry_copied(entry_list(node, store, levels), at, copy)
}

/// What a test for an accepted entry returns.
pub open spec fn any_outcome<K, V, F, E, P>(
    resolver: F,
    predicate: P,
    node: HamtNode<K, V>,
    levels: nat,
    found: Result<bool, HamtTraversalError<E>>,
) -> bool where
    F: FnMut(&StructuralHash) -> Result<Arc<HamtNode<K, V>>, E>,
    P: FnMut(&K, &V) -> Result<bool, E>,
 {
    forall|store: spec_fn(StructuralHash) -> HamtNode<K, V>| #[trigger]
        loadable(loader::<K, V, E, F>(resolver), store, node, levels) ==> match found {
            Ok(true) => exists|at: int| #[trigger]
                first_match::<K, V, F, E, P>(resolver, predicate, node, store, levels, at),
            Ok(false) => {
                &&& all_pass::<K, V, bool, F, E, P>(
                    resolver,
                    predicate,
                    node,
                    store,
                    levels,
                    false,
                )
                &&& !too_deep(node, store, levels)
            },
            Err(HamtTraversalError::Resolve(error)) => first_failure::<K, V, bool, F, E, P>(
                resolver,
                predicate,
                node,
                store,
                levels,
                false,
                error,
            ),
            Err(HamtTraversalError::MaxDepthExceeded { depth }) => depth == 52 && depth_stops::<
                K,
                V,
                bool,
                F,
                E,
                P,
            >(resolver, predicate, node, store, levels, false),
        }
}

/// Every entry before a place in the list of a child comes before it in the
/// list of its parent.
proof fn child_span<K, V>(
    node: HamtNode<K, V>,
    store: spec_fn(StructuralHash) -> HamtNode<K, V>,
    levels: nat,
    n: int,
    child: HamtNode<K, V>,
)
    requires
        levels > 0,
        0 <= n < node.children@.len(),
        child == node_at(node.children@[n], store),
    ensures
        ({
            let start = entries_upto(node, store, levels, n as nat);
            let own = entry_list(child, store, (levels - 1) as nat);
            let all = entry_list(node, store, levels);
            &&& entries_upto(node, store, levels, (n + 1) as nat) == start + own
            &&& start.len() + own.len() <= all.len()
            &&& forall|i: int| 0 <= i < start.len() ==> #[trigger] all[i] == start[i]
            &&& forall|i: int|
                0 <= i < own.len() ==> #[trigger] own[i] == all[start.len() + i]
            &&& forall|i: int|
                start.len() <= i < start.len() + own.len() ==> #[trigger] all[i] == own[i
                    - start.len()]
        }),
{
    let start = entries_upto(node, store, levels, n as nat);
    let own = entry_list(child, store, (levels - 1) as nat);
    let all = entry_list(node, store, levels);
    entries_prefix(node, store, levels, (n + 1) as nat, node.children@.len());
    let upto = entries_upto(node, store, levels, (n + 1) as nat);
    assert(upto == start + own);
    assert(upto =~= all.take(upto.len() as int));
    assert forall|i: int| 0 <= i < upto.len() implies upto[i] == all[i] by {
        assert(all.take(upto.len() as int)[i] == all[i]);
    }
    assert forall|i: int| 0 <= i < start.len() implies #[trigger] all[i] == start[i] by {
        assert(upto[i] == all[i]);
    }
    assert forall|i: int| 0 <= i < own.len() implies #[trigger] own[i] == all[start.len() + i] by {
        assert(upto[start.len() + i] == all[start.len() + i]);
    }
    assert forall|i: int| start.len() <= i < start.len() + own.len() implies #[trigger] all[i]
        == own[i - start.len()] by {
        assert(upto[i] == all[i]);
    }
}

/// Everything in front of a child went well.
pub open spec fn passed_upto<K, V, T, F, E, P>(
    resolver: F,
    predicate: P,
    node: HamtNode<K, V>,
    store: spec_fn(StructuralHash) -> HamtNode<K, V>,
    levels: nat,
    n: nat,
    pass: T,
) -> bool where
    F: FnMut(&StructuralHash) -> Result<Arc<HamtNode<K, V>>, E>,
    P: FnMut(&K, &V) -> Result<T, E>,
 {
    let seen = entries_upto(node, store, levels, n);
    &&& loaded_upto(loader::<K, V, E, F>(resolver), store, node, levels, n)
    &&& all_answer::<K, V, T, E, P>(predicate, seen, seen.len() as int, pass)
}

/// A leaf of a node, with every earlier one let pass.
proof fn passes_to_leaf<K, V, T, F, E, P>(
    resolver: F,
    predicate: P,
    node: HamtNode<K, V>,
    store: spec_fn(StructuralHash) -> HamtNode<K, V>,
    levels: nat,
    at: int,
    pass: T,
) where
    F: FnMut(&StructuralHash) -> Result<Arc<HamtNode<K, V>>, E>,
    P: FnMut(&K, &V) -> Result<T, E>,

    requires
        levels > 0,
        0 <= at < node.leaves@.len(),
        all_answer::<K, V, T, E, P>(predicate, node.leaves@, at, pass),
    ensures
        entry_list(node, store, levels)[at] == node.leaves@[at],
        passes_to::<K, V, T, F, E, P>(
            resolver,
            predicate,
            node,
            store,
            levels,
            pass,
            Stop::Entry,
            at,
        ),
{
    let all = entry_list(node, store, levels);
    entries_prefix(node, store, levels, 0, node.children@.len());
    assert(node.leaves@.is_prefix_of(all));
    assert forall|i: int| 0 <= i < node.leaves@.len() implies all[i] == node.leaves@[i] by {
        assert(all.take(node.leaves@.len() as int)[i] == node.leaves@[i]);
    }
    assert forall|i: int| 0 <= i < at implies answers::<K, V, T, E, P>(
        predicate,
        #[trigger] all[i],
        Ok(pass),
    ) by {
        assert(all[i] == node.leaves@[i]);
    }
}

/// What is in front of a child, with the first entries of the child.
proof fn span_passes<K, V, T, E, P>(
    predicate: P,
    node: HamtNode<K, V>,
    store: spec_fn(StructuralHash) -> HamtNode<K, V>,
    levels: nat,
    n: int,
    at: int,
    pass: T,
) where P: FnMut(&K, &V) -> Result<T, E>
    requires
        levels > 0,
        0 <= n < node.children@.len(),
        ({
            let start = entries_upto(node, store, levels, n as nat);
            let own = entry_list(node_at(node.children@[n], store), store, (levels - 1) as nat);
            &&& all_answer::<K, V, T, E, P>(predicate, start, start.len() as int, pass)
            &&& 0 <= at <= own.len()
            &&& all_answer::<K, V, T, E, P>(predicate, own, at, pass)
        }),
    ensures
        ({
            let start = entries_upto(node, store, levels, n as nat);
            let own = entry_list(node_at(node.children@[n], store), store, (levels - 1) as nat);
            let all = entry_list(node, store, levels);
            let seen = entries_upto(node, store, levels, (n + 1) as nat);
            &&& start.len() + at <= all.len()
            &&& all_answer::<K, V, T, E, P>(predicate, all, start.len() + at, pass)
            &&& at < own.len() ==> start.len() + at < all.len() && all[start.len() + at] == own[at]
            &&& at == own.len() ==> all_answer::<K, V, T, E, P>(
                predicate,
                seen,
                seen.len() as int,
                pass,
            )
        }),
{
    let child = node_at(node.children@[n], store);
    let start = entries_upto(node, store, levels, n as nat);
    let own = entry_list(child, store, (levels - 1) as nat);
    let all = entry_list(node, store, levels);
    let seen = entries_upto(node, store, levels, (n + 1) as nat);
    child_span(node, store, levels, n, child);
    assert forall|i: int| 0 <= i < start.len() + at implies answers::<K, V, T, E, P>(
        predicate,
        #[trigger] all[i],
        Ok(pass),
    ) by {
        if i < start.len() {
            assert(all[i] == start[i]);
        } else {
            assert(all[i] == own[i - start.len()]);
        }
    }
    if at == own.len() {
        assert forall|i: int| 0 <= i < seen.len() implies answers::<K, V, T, E, P>(
            predicate,
            #[trigger] seen[i],
            Ok(pass),
        ) by {
            if i < start.len() {
                assert(seen[i] == start[i]);
            } else {
                assert(seen[i] == own[i - start.len()]);
            }
        }
    }
    if at < own.len() {
        assert(own[at] == all[start.len() + at]);
    }
}

/// A place below a child that a walk of the child gets to, a walk of the node
/// gets to.
proof fn passes_below<K, V, T, F, E, P>(
    resolver: F,
    predicate: P,
    node: HamtNode<K, V>,
    store: spec_fn(StructuralHash) -> HamtNode<K, V>,
    levels: nat,
    n: int,
    pass: T,
    stop: Stop,
    at: int,
) where
    F: FnMut(&StructuralHash) -> Result<Arc<HamtNode<K, V>>, E>,
    P: FnMut(&K, &V) -> Result<T, E>,

    requires
        levels > 0,
        0 <= n < node.children@.len(),
        passed_upto::<K, V, T, F, E, P>(
            resolver,
            predicate,
            node,
            store,
            levels,
            n as nat,
            pass,
        ),
        child_loads(loader::<K, V, E, F>(resolver), store, node.children@[n]),
        passes_to::<K, V, T, F, E, P>(
            resolver,
            predicate,
            node_at(node.children@[n], store),
            store,
            (levels - 1) as nat,
            pass,
            stop,
            at,
        ),
    ensures
        ({
            let start = entries_upto(node, store, levels, n as nat).len();
            let own = entry_list(node_at(node.children@[n], store), store, (levels - 1) as nat);
            &&& passes_to::<K, V, T, F, E, P>(
                resolver,
                predicate,
                node,
                store,
                levels,
                pass,
                stop,
                start + at,
            )
            &&& stop == Stop::Entry ==> entry_list(node, store, levels)[start + at] == own[at]
        }),
{
    span_passes::<K, V, T, E, P>(predicate, node, store, levels, n, at, pass);
    stops_below(loader::<K, V, E, F>(resolver), store, node, levels, n, stop, at);
}

/// A child that cannot be loaded, with everything in front of it gone well.
proof fn failure_at<K, V, T, F, E, P>(
    resolver: F,
    predicate: P,
    node: HamtNode<K, V>,
    store: spec_fn(StructuralHash) -> HamtNode<K, V>,
    levels: nat,
    n: int,
    pass: T,
    error: E,
) where
    F: FnMut(&StructuralHash) -> Result<Arc<HamtNode<K, V>>, E>,
    P: FnMut(&K, &V) -> Result<T, E>,

    requires
        levels > 0,
        0 <= n < node.children@.len(),
        node.children@[n] is Lazy,
        call_ensures(
            resolver,
            (&node.children@[n]->Lazy_0,),
            Err::<Arc<HamtNode<K, V>>, E>(error),
        ),
        passed_upto::<K, V, T, F, E, P>(
            resolver,
            predicate,
            node,
            store,
            levels,
            n as nat,
            pass,
        ),
    ensures
        first_failure::<K, V, T, F, E, P>(
            resolver,
            predicate,
            node,
            store,
            levels,
            pass,
            error,
        ),
{
    let hash = node.children@[n]->Lazy_0;
    let start = entries_upto(node, store, levels, n as nat).len() as int;
    assert(node.children@[n] == NodeRef::<K, V>::Lazy(hash));
    span_passes::<K, V, T, E, P>(predicate, node, store, levels, n, 0, pass);
    assert(passes_to::<K, V, T, F, E, P>(
        resolver,
        predicate,
        node,
        store,
        levels,
        pass,
        Stop::Load(hash),
        start,
    ));
}

/// The first failure below a child is the first failure below the node.
proof fn failure_below<K, V, T, F, E, P>(
    resolver: F,
    predicate: P,
    node: HamtNode<K, V>,
    store: spec_fn(StructuralHash) -> HamtNode<K, V>,
    levels: nat,
    n: int,
    pass: T,
    error: E,
) where
    F: FnMut(&StructuralHash) -> Result<Arc<HamtNode<K, V>>, E>,
    P: FnMut(&K, &V) -> Result<T, E>,

    requires
        levels > 0,
        0 <= n < node.children@.len(),
        passed_upto::<K, V, T, F, E, P>(
            resolver,
            predicate,
            node,
            store,
            levels,
            n as nat,
            pass,
        ),
        child_loads(loader::<K, V, E, F>(resolver), store, node.children@[n]),
        first_failure::<K, V, T, F, E, P>(
            resolver,
            predicate,
            node_at(node.children@[n], store),
            store,
            (levels - 1) as nat,
            pass,
            error,
        ),
    ensures
        first_failure::<K, V, T, F, E, P>(
            resolver,
            predicate,
            node,
            store,
            levels,
            pass,
            error,
        ),
{
    let child = node_at(node.children@[n], store);
    let below = (levels - 1) as nat;
    let (stop, at) = choose|stop: Stop, at: int| #[trigger]
        passes_to::<K, V, T, F, E, P>(
            resolver,
            predicate,
            child,
            store,
            below,
            pass,
            stop,
            at,
        ) && match stop {
            Stop::Entry => answers::<K, V, T, E, P>(
                predicate,
                entry_list(child, store, below)[at],
                Err::<T, E>(error),
            ),
            Stop::Load(hash) => call_ensures(
                resolver,
                (&hash,),
                Err::<Arc<HamtNode<K, V>>, E>(error),
            ),
            Stop::Depth => false,
        };
    passes_below::<K, V, T, F, E, P>(
        resolver,
        predicate,
        node,
        store,
        levels,
        n,
        pass,
        stop,
        at,
    );
}

/// The child of a node, loaded if it has to be.
pub(crate) fn resolve_node<K, V, F, E>(node_ref: &NodeRef<K, V>, resolver: &mut F) -> (node: Result<
    Arc<HamtNode<K, V>>,
    E,
>) where F: FnMut(&StructuralHash) -> Result<Arc<HamtNode<K, V>>, E>
    requires
        resolver_total::<K, V, E, F>(*old(resolver)),
    ensures
        *final(resolver) == *old(resolver),
        match node {
            Ok(node) => match *node_ref {
                NodeRef::Resolved(known) => *node == *known,
                NodeRef::Lazy(hash) => loader::<K, V, E, F>(*old(resolver))(hash, *node),
            },
            Err(error) => {
                &&& *node_ref is Lazy
                &&& call_ensures(
                    *old(resolver),
                    (&node_ref->Lazy_0,),
                    Err::<Arc<HamtNode<K, V>>, E>(error),
                )
            },
        },
{
    match node_ref {
        NodeRef::Resolved(node) => Ok(node.clone()),
        NodeRef::Lazy(hash) => resolver(hash),
    }
}

/// What the test of a child means for the test of its parent.
spec fn any_step<K, V, F, E, P>(
    resolver: F,
    predicate: P,
    node: HamtNode<K, V>,
    store: spec_fn(StructuralHash) -> HamtNode<K, V>,
    levels: nat,
    n: int,
    found: Result<bool, HamtTraversalError<E>>,
) -> bool where
    F: FnMut(&StructuralHash) -> Result<Arc<HamtNode<K, V>>, E>,
    P: FnMut(&K, &V) -> Result<bool, E>,
 {
    match found {
        Ok(true) => exists|at: int| #[trigger]
            first_match::<K, V, F, E, P>(resolver, predicate, node, store, levels, at),
        Ok(false) => {
            &&& passed_upto::<K, V, bool, F, E, P>(
                resolver,
                predicate,
                node,
                store,
                levels,
                (n + 1) as nat,
                false,
            )
            &&& !too_deep(node_at(node.children@[n], store), store, (levels - 1) as nat)
        },
        Err(HamtTraversalError::Resolve(error)) => first_failure::<K, V, bool, F, E, P>(
            resolver,
            predicate,
            node,
            store,
            levels,
            false,
            error,
        ),
        Err(HamtTraversalError::MaxDepthExceeded { depth }) => depth == 52 && depth_stops::<
            K,
            V,
            bool,
            F,
            E,
            P,
        >(resolver, predicate, node, store, levels, false),
    }
}

proof fn any_step_holds<K, V, F, E, P>(
    resolver: F,
    predicate: P,
    node: HamtNode<K, V>,
    store: spec_fn(StructuralHash) -> HamtNode<K, V>,
    levels: nat,
    n: int,
    found: Result<bool, HamtTraversalError<E>>,
) where
    F: FnMut(&StructuralHash) -> Result<Arc<HamtNode<K, V>>, E>,
    P: FnMut(&K, &V) -> Result<bool, E>,

    requires
        levels > 0,
        0 <= n < node.children@.len(),
        passed_upto::<K, V, bool, F, E, P>(
            resolver,
            predicate,
            node,
            store,
            levels,
            n as nat,
            false,
        ),
        child_loads(loader::<K, V, E, F>(resolver), store, node.children@[n]),
        loadable(
            loader::<K, V, E, F>(resolver),
            store,
            node_at(node.children@[n], store),
            (levels - 1) as nat,
        ),
        any_outcome::<K, V, F, E, P>(
            resolver,
            predicate,
            node_at(node.children@[n], store),
            (levels - 1) as nat,
            found,
        ),
    ensures
        any_step::<K, V, F, E, P>(resolver, predicate, node, store, levels, n, found),
{
    let child = node_at(node.children@[n], store);
    let below = (levels - 1) as nat;
    match found {
        Ok(true) => {
            let at = choose|at: int| #[trigger]
                first_match::<K, V, F, E, P>(resolver, predicate, child, store, below, at);
            match_below::<K, V, F, E, P>(resolver, predicate, node, store, levels, n, at);
        },
        Ok(false) => {
            let own = entry_list(child, store, below);
            span_passes::<K, V, bool, E, P>(
                predicate,
                node,
                store,
                levels,
                n,
                own.len() as int,
                false,
            );
        },
        Err(HamtTraversalError::Resolve(error)) => {
            failure_below::<K, V, bool, F, E, P>(
                resolver,
                predicate,
                node,
                store,
                levels,
                n,
                false,
                error,
            );
        },
        Err(HamtTraversalError::MaxDepthExceeded { .. }) => {
            let at = choose|at: int| #[trigger]
                passes_to::<K, V, bool, F, E, P>(
                    resolver,
                    predicate,
                    child,
                    store,
                    below,
                    false,
                    Stop::Depth,
                    at,
                );
            passes_below::<K, V, bool, F, E, P>(
                resolver,
                predicate,
                node,
                store,
                levels,
                n,
                false,
                Stop::Depth,
                at,
            );
            assert(node.children@[n] == node.children@[n]);
        },
    }
}

/// The first match of a child is the first match of the node.
proof fn match_below<K, V, F, E, P>(
    resolver: F,
    predicate: P,
    node: HamtNode<K, V>,
    store: spec_fn(StructuralHash) -> HamtNode<K, V>,
    levels: nat,
    n: int,
    at: int,
) where
    F: FnMut(&StructuralHash) -> Result<Arc<HamtNode<K, V>>, E>,
    P: FnMut(&K, &V) -> Result<bool, E>,

    requires
        levels > 0,
        0 <= n < node.children@.len(),
        passed_upto::<K, V, bool, F, E, P>(
            resolver,
            predicate,
            node,
            store,
            levels,
            n as nat,
            false,
        ),
        child_loads(loader::<K, V, E, F>(resolver), store, node.children@[n]),
        first_match::<K, V, F, E, P>(
            resolver,
            predicate,
            node_at(node.children@[n], store),
            store,
            (levels - 1) as nat,
            at,
        ),
    ensures
        ({
            let start = entries_upto(node, store, levels, n as nat).len();
            let own = entry_list(node_at(node.children@[n], store), store, (levels - 1) as nat);
            &&& first_match::<K, V, F, E, P>(
                resolver,
                predicate,
                node,
                store,
                levels,
                start + at,
            )
            &&& entry_list(node, store, levels)[start + at] == own[at]
        }),
{
    passes_below::<K, V, bool, F, E, P>(
        resolver,
        predicate,
        node,
        store,
        levels,
        n,
        false,
        Stop::Entry,
        at,
    );
}

/// What the search of a child means for the search of its parent.
spec fn find_step<K: HamtCodec, V: HamtCodec, F, E, P>(
    resolver: F,
    predicate: P,
    node: HamtNode<K, V>,
    store: spec_fn(StructuralHash) -> HamtNode<K, V>,
    levels: nat,
    n: int,
    found: Result<Option<(K, V)>, HamtTraversalError<E>>,
) -> bool where
    F: FnMut(&StructuralHash) -> Result<Arc<HamtNode<K, V>>, E>,
    P: FnMut(&K, &V) -> Result<bool, E>,
 {
    &&& any_step::<K, V, F, E, P>(
        resolver,
        predicate,
        node,
        store,
        levels,
        n,
        match found {
            Ok(entry) => Ok(entry is Some),
            Err(error) => Err(error),
        },
    )
    &&& found matches Ok(Some(copy)) ==> exists|at: int| #[trigger]
        first_match::<K, V, F, E, P>(resolver, predicate, node, store, levels, at)
            && entry_copied(entry_list(node, store, levels), at, copy)
}

proof fn find_step_holds<K: HamtCodec, V: HamtCodec, F, E, P>(
    resolver: F,
    predicate: P,
    node: HamtNode<K, V>,
    store: spec_fn(StructuralHash) -> HamtNode<K, V>,
    levels: nat,
    n: int,
    found: Result<Option<(K, V)>, HamtTraversalError<E>>,
) where
    F: FnMut(&StructuralHash) -> Result<Arc<HamtNode<K, V>>, E>,
    P: FnMut(&K, &V) -> Result<bool, E>,

    requires
        levels > 0,
        0 <= n < node.children@.len(),
        passed_upto::<K, V, bool, F, E, P>(
            resolver,
            predicate,
            node,
            store,
            levels,
            n as nat,
            false,
        ),
        child_loads(loader::<K, V, E, F>(resolver), store, node.children@[n]),
        loadable(
            loader::<K, V, E, F>(resolver),
            store,
            node_at(node.children@[n], store),
            (levels - 1) as nat,
        ),
        find_outcome::<K, V, F, E, P>(
            resolver,
            predicate,
            node_at(node.children@[n], store),
            (levels - 1) as nat,
            found,
        ),
    ensures
        find_step::<K, V, F, E, P>(resolver, predicate, node, store, levels, n, found),
{
    let child = node_at(node.children@[n], store);
    let below = (levels - 1) as nat;
    any_step_holds::<K, V, F, E, P>(
        resolver,
        predicate,
        node,
        store,
        levels,
        n,
        match found {
            Ok(entry) => Ok(entry is Some),
            Err(error) => Err(error),
        },
    );
    if let Ok(Some(copy)) = found {
        let at = choose|at: int| #[trigger]
            first_match::<K, V, F, E, P>(resolver, predicate, child, store, below, at)
                && entry_copied(entry_list(child, store, below), at, copy);
        match_below::<K, V, F, E, P>(resolver, predicate, node, store, levels, n, at);
    }
}

impl<K: HamtCodec, V: HamtCodec> HamtNode<K, V> {
    fn find_entry_inner<F, E, P>(
        &self,
        resolver: &mut F,
        predicate: &mut P,
        depth: usize,
    ) -> (found: Result<Option<(K, V)>, HamtTraversalError<E>>) where
        K: Clone,
        V: Clone,
        F: FnMut(&StructuralHash) -> Result<Arc<HamtNode<K, V>>, E>,
        P: FnMut(&K, &V) -> Result<bool, E>,

        requires
            depth <= 52,
            resolver_total::<K, V, E, F>(*old(resolver)),
            predicate_total::<K, V, bool, E, P>(*old(predicate)),
            clone_keeps::<K>(),
            clone_keeps::<V>(),
        ensures
            *final(resolver) == *old(resolver),
            *final(predicate) == *old(predicate),
            find_outcome::<K, V, F, E, P>(
                *old(resolver),
                *old(predicate),
                *self,
                (52 - depth) as nat,
                found,
            ),
        decreases 52 - depth,
    {
        if depth >= HAMT_MAX_DEPTH {
            proof {
                assert forall|store: spec_fn(StructuralHash) -> HamtNode<K, V>| #[trigger]
                    loadable(
                        loader::<K, V, E, F>(*resolver),
                        store,
                        *self,
                        0,
                    ) implies depth_stops::<K, V, bool, F, E, P>(
                    *resolver,
                    *predicate,
                    *self,
                    store,
                    0,
                    false,
                ) by {
                    assert(passes_to::<K, V, bool, F, E, P>(
                        *resolver,
                        *predicate,
                        *self,
                        store,
                        0,
                        false,
                        Stop::Depth,
                        0,
                    ));
                }
            }
            return Err(HamtTraversalError::MaxDepthExceeded { depth });
        }
        let ghost levels = (52 - depth) as nat;
        let ghost load = loader::<K, V, E, F>(*resolver);
        let mut index: usize = 0;
        while index < self.leaves.len()
            invariant
                index <= self.leaves.len(),
                levels == 52 - depth,
                levels > 0,
                load == loader::<K, V, E, F>(*resolver),
                *resolver == *old(resolver),
                *predicate == *old(predicate),
                predicate_total::<K, V, bool, E, P>(*predicate),
                clone_keeps::<K>(),
                clone_keeps::<V>(),
                all_answer::<K, V, bool, E, P>(*predicate, self.leaves@, index as int, false),
            decreases self.leaves.len() - index,
        {
            let entry: &(K, V) = &self.leaves[index];
            let answer: Result<bool, E> = predicate(&entry.0, &entry.1);
            proof {
                assert(answers::<K, V, bool, E, P>(*predicate, self.leaves@[index as int], answer));
            }
            match answer {
                Ok(hit) => {
                    if hit {
                        let key: K = entry.0.clone();
                        let value: V = entry.1.clone();
                        proof {
                            assert(cloned(entry.0, key) && cloned(entry.1, value));
                            assert forall|store: spec_fn(StructuralHash) -> HamtNode<K, V>| #[trigger]
                                loadable(load, store, *self, levels) implies first_match::<
                                K,
                                V,
                                F,
                                E,
                                P,
                            >(*resolver, *predicate, *self, store, levels, index as int)
                                && entry_copied(
                                entry_list(*self, store, levels),
                                index as int,
                                (key, value),
                            ) by {
                                passes_to_leaf::<K, V, bool, F, E, P>(
                                    *resolver,
                                    *predicate,
                                    *self,
                                    store,
                                    levels,
                                    index as int,
                                    false,
                                );
                            }
                        }
                        return Ok(Some((key, value)));
                    }
                },
                Err(error) => {
                    proof {
                        assert forall|store: spec_fn(StructuralHash) -> HamtNode<K, V>| #[trigger]
                            loadable(load, store, *self, levels) implies first_failure::<
                            K,
                            V,
                            bool,
                            F,
                            E,
                            P,
                        >(*resolver, *predicate, *self, store, levels, false, error) by {
                            passes_to_leaf::<K, V, bool, F, E, P>(
                                *resolver,
                                *predicate,
                                *self,
                                store,
                                levels,
                                index as int,
                                false,
                            );
                        }
                    }
                    return Err(HamtTraversalError::Resolve(error));
                },
            }
            index = index + 1;
        }
        let mut place: usize = 0;
        while place < self.children.len()
            invariant
                place <= self.children.len(),
                levels == 52 - depth,
                levels > 0,
                depth < 52,
                *resolver == *old(resolver),
                *predicate == *old(predicate),
                load == loader::<K, V, E, F>(*resolver),
                resolver_total::<K, V, E, F>(*resolver),
                predicate_total::<K, V, bool, E, P>(*predicate),
                clone_keeps::<K>(),
                clone_keeps::<V>(),
                forall|store: spec_fn(StructuralHash) -> HamtNode<K, V>| #[trigger]
                    loadable(load, store, *self, levels) ==> {
                        &&& passed_upto::<K, V, bool, F, E, P>(
                            *resolver,
                            *predicate,
                            *self,
                            store,
                            levels,
                            place as nat,
                            false,
                        )
                        &&& forall|i: int|
                            0 <= i < place ==> !too_deep(
                                node_at(#[trigger] self.children@[i], store),
                                store,
                                (levels - 1) as nat,
                            )
                    },
            decreases self.children.len() - place,
        {
            let child_ref: &NodeRef<K, V> = &self.children[place];
            let child: Arc<HamtNode<K, V>> = match resolve_node(child_ref, resolver) {
                Ok(node) => node,
                Err(error) => {
                    proof {
                        assert forall|store: spec_fn(StructuralHash) -> HamtNode<K, V>| #[trigger]
                            loadable(load, store, *self, levels) implies first_failure::<
                            K,
                            V,
                            bool,
                            F,
                            E,
                            P,
                        >(*resolver, *predicate, *self, store, levels, false, error) by {
                            failure_at::<K, V, bool, F, E, P>(
                                *resolver,
                                *predicate,
                                *self,
                                store,
                                levels,
                                place as int,
                                false,
                                error,
                            );
                        }
                    }
                    return Err(HamtTraversalError::Resolve(error));
                },
            };
            let loaded: &HamtNode<K, V> = &*child;
            let below: Result<Option<(K, V)>, HamtTraversalError<E>> = child.find_entry_inner(
                resolver,
                predicate,
                depth + 1,
            );
            proof {
                assert forall|store: spec_fn(StructuralHash) -> HamtNode<K, V>| #[trigger]
                    loadable(load, store, *self, levels) implies find_step::<K, V, F, E, P>(
                    *resolver,
                    *predicate,
                    *self,
                    store,
                    levels,
                    place as int,
                    below,
                ) by {
                    assert(self.children@[place as int] == *child_ref);
                    assert(*loaded == node_at(self.children@[place as int], store));
                    assert(loadable(load, store, *loaded, (52 - (depth + 1)) as nat));
                    find_step_holds::<K, V, F, E, P>(
                        *resolver,
                        *predicate,
                        *self,
                        store,
                        levels,
                        place as int,
                        below,
                    );
                }
            }
            match below {
                Ok(Some(entry)) => {
                    return Ok(Some(entry));
                },
                Ok(None) => {},
                Err(error) => {
                    return Err(error);
                },
            }
            place = place + 1;
        }
        Ok(None)
    }
}

impl<K, V> HamtNode<K, V> {
    fn any_entry_inner<F, E, P>(
        &self,
        resolver: &mut F,
        predicate: &mut P,
        depth: usize,
    ) -> (found: Result<bool, HamtTraversalError<E>>) where
        F: FnMut(&StructuralHash) -> Result<Arc<HamtNode<K, V>>, E>,
        P: FnMut(&K, &V) -> Result<bool, E>,

        requires
            depth <= 52,
            resolver_total::<K, V, E, F>(*old(resolver)),
            predicate_total::<K, V, bool, E, P>(*old(predicate)),
        ensures
            *final(resolver) == *old(resolver),
            *final(predicate) == *old(predicate),
            any_outcome::<K, V, F, E, P>(
                *old(resolver),
                *old(predicate),
                *self,
                (52 - depth) as nat,
                found,
            ),
        decreases 52 - depth,
    {
        if depth >= HAMT_MAX_DEPTH {
            proof {
                assert forall|store: spec_fn(StructuralHash) -> HamtNode<K, V>| #[trigger]
                    loadable(
                        loader::<K, V, E, F>(*resolver),
                        store,
                        *self,
                        0,
                    ) implies depth_stops::<K, V, bool, F, E, P>(
                    *resolver,
                    *predicate,
                    *self,
                    store,
                    0,
                    false,
                ) by {
                    assert(passes_to::<K, V, bool, F, E, P>(
                        *resolver,
                        *predicate,
                        *self,
                        store,
                        0,
                        false,
                        Stop::Depth,
                        0,
                    ));
                }
            }
            return Err(HamtTraversalError::MaxDepthExceeded { depth });
        }
        let ghost levels = (52 - depth) as nat;
        let ghost load = loader::<K, V, E, F>(*resolver);
        let mut index: usize = 0;
        while index < self.leaves.len()
            invariant
                index <= self.leaves.len(),
                levels == 52 - depth,
                levels > 0,
                load == loader::<K, V, E, F>(*resolver),
                *resolver == *old(resolver),
                *predicate == *old(predicate),
                predicate_total::<K, V, bool, E, P>(*predicate),
                all_answer::<K, V, bool, E, P>(*predicate, self.leaves@, index as int, false),
            decreases self.leaves.len() - index,
        {
            let entry: &(K, V) = &self.leaves[index];
            let answer: Result<bool, E> = predicate(&entry.0, &entry.1);
            proof {
                assert(answers::<K, V, bool, E, P>(*predicate, self.leaves@[index as int], answer));
            }
            match answer {
                Ok(hit) => {
                    if hit {
                        proof {
                            assert forall|store: spec_fn(StructuralHash) -> HamtNode<K, V>| #[trigger]
                                loadable(load, store, *self, levels) implies first_match::<
                                K,
                                V,
                                F,
                                E,
                                P,
                            >(*resolver, *predicate, *self, store, levels, index as int) by {
                                passes_to_leaf::<K, V, bool, F, E, P>(
                                    *resolver,
                                    *predicate,
                                    *self,
                                    store,
                                    levels,
                                    index as int,
                                    false,
                                );
                            }
                        }
                        return Ok(true);
                    }
                },
                Err(error) => {
                    proof {
                        assert forall|store: spec_fn(StructuralHash) -> HamtNode<K, V>| #[trigger]
                            loadable(load, store, *self, levels) implies first_failure::<
                            K,
                            V,
                            bool,
                            F,
                            E,
                            P,
                        >(*resolver, *predicate, *self, store, levels, false, error) by {
                            passes_to_leaf::<K, V, bool, F, E, P>(
                                *resolver,
                                *predicate,
                                *self,
                                store,
                                levels,
                                index as int,
                                false,
                            );
                        }
                    }
                    return Err(HamtTraversalError::Resolve(error));
                },
            }
            index = index + 1;
        }
        let mut place: usize = 0;
        while place < self.children.len()
            invariant
                place <= self.children.len(),
                levels == 52 - depth,
                levels > 0,
                depth < 52,
                *resolver == *old(resolver),
                *predicate == *old(predicate),
                load == loader::<K, V, E, F>(*resolver),
                resolver_total::<K, V, E, F>(*resolver),
                predicate_total::<K, V, bool, E, P>(*predicate),
                forall|store: spec_fn(StructuralHash) -> HamtNode<K, V>| #[trigger]
                    loadable(load, store, *self, levels) ==> {
                        &&& passed_upto::<K, V, bool, F, E, P>(
                            *resolver,
                            *predicate,
                            *self,
                            store,
                            levels,
                            place as nat,
                            false,
                        )
                        &&& forall|i: int|
                            0 <= i < place ==> !too_deep(
                                node_at(#[trigger] self.children@[i], store),
                                store,
                                (levels - 1) as nat,
                            )
                    },
            decreases self.children.len() - place,
        {
            let child_ref: &NodeRef<K, V> = &self.children[place];
            let child: Arc<HamtNode<K, V>> = match resolve_node(child_ref, resolver) {
                Ok(node) => node,
                Err(error) => {
                    proof {
                        assert forall|store: spec_fn(StructuralHash) -> HamtNode<K, V>| #[trigger]
                            loadable(load, store, *self, levels) implies first_failure::<
                            K,
                            V,
                            bool,
                            F,
                            E,
                            P,
                        >(*resolver, *predicate, *self, store, levels, false, error) by {
                            failure_at::<K, V, bool, F, E, P>(
                                *resolver,
                                *predicate,
                                *self,
                                store,
                                levels,
                                place as int,
                                false,
                                error,
                            );
                        }
                    }
                    return Err(HamtTraversalError::Resolve(error));
                },
            };
            let loaded: &HamtNode<K, V> = &*child;
            let below: Result<bool, HamtTraversalError<E>> = child.any_entry_inner(
                resolver,
                predicate,
                depth + 1,
            );
            proof {
                assert forall|store: spec_fn(StructuralHash) -> HamtNode<K, V>| #[trigger]
                    loadable(load, store, *self, levels) implies any_step::<K, V, F, E, P>(
                    *resolver,
                    *predicate,
                    *self,
                    store,
                    levels,
                    place as int,
                    below,
                ) by {
                    assert(self.children@[place as int] == *child_ref);
                    assert(*loaded == node_at(self.children@[place as int], store));
                    assert(loadable(load, store, *loaded, (52 - (depth + 1)) as nat));
                    any_step_holds::<K, V, F, E, P>(
                        *resolver,
                        *predicate,
                        *self,
                        store,
                        levels,
                        place as int,
                        below,
                    );
                }
            }
            match below {
                Ok(true) => {
                    return Ok(true);
                },
                Ok(false) => {},
                Err(error) => {
                    return Err(error);
                },
            }
            place = place + 1;
        }
        Ok(false)
    }
}

impl<K: HamtCodec, V: HamtCodec> HamtNode<K, V> {
    /// Finds the first key-value entry in the trie that satisfies a predicate.
    ///
    /// Traversal proceeds lazily across child nodes and stops on the first
    /// entry for which the predicate returns `Ok(true)`.
    ///
    /// # Errors
    /// Returns `HamtTraversalError::Resolve` with the error emitted by
    /// `resolver` or `predicate`, or `HamtTraversalError::MaxDepthExceeded` if
    /// the walk recurses past the deepest depth a legitimately built trie can
    /// have.
    pub fn find_entry<F, E, P>(&self, resolver: &mut F, predicate: &mut P) -> (found: Result<
        Option<(K, V)>,
        HamtTraversalError<E>,
    >) where
        K: Clone,
        V: Clone,
        F: FnMut(&StructuralHash) -> Result<Arc<HamtNode<K, V>>, E>,
        P: FnMut(&K, &V) -> Result<bool, E>,

        requires
            resolver_total::<K, V, E, F>(*old(resolver)),
            predicate_total::<K, V, bool, E, P>(*old(predicate)),
            clone_keeps::<K>(),
            clone_keeps::<V>(),
        ensures
            *final(resolver) == *old(resolver),
            *final(predicate) == *old(predicate),
            find_outcome::<K, V, F, E, P>(*old(resolver), *old(predicate), *self, 52, found),
    {
        self.find_entry_inner(resolver, predicate, 0)
    }
}

impl<K, V> HamtNode<K, V> {
    /// Checks if any key-value entry in the trie satisfies a predicate.
    ///
    /// Traversal proceeds lazily across child nodes, returning `Ok(true)` and
    /// stopping immediately on the first entry for which the predicate
    /// returns `Ok(true)`. Returns `Ok(false)` if no matching entry is found.
    ///
    /// # Errors
    /// Returns `HamtTraversalError::Resolve` with the error emitted by
    /// `resolver` or `predicate`, or `HamtTraversalError::MaxDepthExceeded` if
    /// the walk recurses past the deepest depth a legitimately built trie can
    /// have.
    pub fn any_entry<F, E, P>(&self, resolver: &mut F, predicate: &mut P) -> (found: Result<
        bool,
        HamtTraversalError<E>,
    >) where
        F: FnMut(&StructuralHash) -> Result<Arc<HamtNode<K, V>>, E>,
        P: FnMut(&K, &V) -> Result<bool, E>,

        requires
            resolver_total::<K, V, E, F>(*old(resolver)),
            predicate_total::<K, V, bool, E, P>(*old(predicate)),
        ensures
            *final(resolver) == *old(resolver),
            *final(predicate) == *old(predicate),
            any_outcome::<K, V, F, E, P>(*old(resolver), *old(predicate), *self, 52, found),
    {
        self.any_entry_inner(resolver, predicate, 0)
    }
}

/// No chain of children, loaded as they may be, leads down more levels.
pub open spec fn shallow<K, V>(
    load: spec_fn(StructuralHash, HamtNode<K, V>) -> bool,
    node: HamtNode<K, V>,
    height: nat,
) -> bool
    decreases height,
{
    forall|i: int|
        0 <= i < node.children@.len() ==> {
            &&& height > 0
            &&& (#[trigger] node.children@[i]) matches NodeRef::Resolved(child) ==> shallow(
                load,
                *child,
                (height - 1) as nat,
            )
            &&& node.children@[i] matches NodeRef::Lazy(h) ==> forall|n: HamtNode<K, V>| #[trigger]
                load(h, n) ==> shallow(load, n, (height - 1) as nat)
        }
}

/// What a visit of every entry returns.
pub open spec fn visit_outcome<K, V, F, E, P>(
    resolver: F,
    visitor: P,
    node: HamtNode<K, V>,
    visited: Result<(), E>,
) -> bool where
    F: FnMut(&StructuralHash) -> Result<Arc<HamtNode<K, V>>, E>,
    P: FnMut(&K, &V) -> Result<(), E>,
 {
    forall|height: nat, store: spec_fn(StructuralHash) -> HamtNode<K, V>|
        #![trigger loadable(loader::<K, V, E, F>(resolver), store, node, height + 1)]
        shallow(loader::<K, V, E, F>(resolver), node, height) && loadable(
            loader::<K, V, E, F>(resolver),
            store,
            node,
            height + 1,
        ) ==> match visited {
            Ok(_) => all_pass::<K, V, (), F, E, P>(
                resolver,
                visitor,
                node,
                store,
                height + 1,
                (),
            ),
            Err(error) => first_failure::<K, V, (), F, E, P>(
                resolver,
                visitor,
                node,
                store,
                height + 1,
                (),
                error,
            ),
        }
}

/// What the visit of a child means for the visit of its parent.
spec fn visit_step<K, V, F, E, P>(
    resolver: F,
    visitor: P,
    node: HamtNode<K, V>,
    store: spec_fn(StructuralHash) -> HamtNode<K, V>,
    height: nat,
    n: int,
    visited: Result<(), E>,
) -> bool where
    F: FnMut(&StructuralHash) -> Result<Arc<HamtNode<K, V>>, E>,
    P: FnMut(&K, &V) -> Result<(), E>,
 {
    match visited {
        Ok(_) => passed_upto::<K, V, (), F, E, P>(
            resolver,
            visitor,
            node,
            store,
            height + 1,
            (n + 1) as nat,
            (),
        ),
        Err(error) => first_failure::<K, V, (), F, E, P>(
            resolver,
            visitor,
            node,
            store,
            height + 1,
            (),
            error,
        ),
    }
}

proof fn visit_step_holds<K, V, F, E, P>(
    resolver: F,
    visitor: P,
    node: HamtNode<K, V>,
    store: spec_fn(StructuralHash) -> HamtNode<K, V>,
    height: nat,
    n: int,
    visited: Result<(), E>,
) where
    F: FnMut(&StructuralHash) -> Result<Arc<HamtNode<K, V>>, E>,
    P: FnMut(&K, &V) -> Result<(), E>,

    requires
        height > 0,
        0 <= n < node.children@.len(),
        passed_upto::<K, V, (), F, E, P>(
            resolver,
            visitor,
            node,
            store,
            height + 1,
            n as nat,
            (),
        ),
        child_loads(loader::<K, V, E, F>(resolver), store, node.children@[n]),
        shallow(
            loader::<K, V, E, F>(resolver),
            node_at(node.children@[n], store),
            (height - 1) as nat,
        ),
        loadable(
            loader::<K, V, E, F>(resolver),
            store,
            node_at(node.children@[n], store),
            height,
        ),
        visit_outcome::<K, V, F, E, P>(
            resolver,
            visitor,
            node_at(node.children@[n], store),
            visited,
        ),
    ensures
        visit_step::<K, V, F, E, P>(resolver, visitor, node, store, height, n, visited),
{
    let child = node_at(node.children@[n], store);
    let below = (height - 1) as nat;
    assert(loadable(loader::<K, V, E, F>(resolver), store, child, below + 1));
    match visited {
        Ok(_) => {
            let own = entry_list(child, store, height);
            span_passes::<K, V, (), E, P>(
                visitor,
                node,
                store,
                height + 1,
                n,
                own.len() as int,
                (),
            );
        },
        Err(error) => {
            failure_below::<K, V, (), F, E, P>(
                resolver,
                visitor,
                node,
                store,
                height + 1,
                n,
                (),
                error,
            );
        },
    }
}

impl<K, V> HamtNode<K, V> {
    fn visit_entries_inner<F, E, P>(
        &self,
        resolver: &mut F,
        visitor: &mut P,
        Ghost(height): Ghost<nat>,
    ) -> (visited: Result<(), E>) where
        F: FnMut(&StructuralHash) -> Result<Arc<HamtNode<K, V>>, E>,
        P: FnMut(&K, &V) -> Result<(), E>,

        requires
            resolver_total::<K, V, E, F>(*old(resolver)),
            predicate_total::<K, V, (), E, P>(*old(visitor)),
            shallow(loader::<K, V, E, F>(*old(resolver)), *self, height),
        ensures
            *final(resolver) == *old(resolver),
            *final(visitor) == *old(visitor),
            visit_outcome::<K, V, F, E, P>(*old(resolver), *old(visitor), *self, visited),
        decreases height,
    {
        let ghost load = loader::<K, V, E, F>(*resolver);
        let mut index: usize = 0;
        while index < self.leaves.len()
            invariant
                index <= self.leaves.len(),
                load == loader::<K, V, E, F>(*resolver),
                *resolver == *old(resolver),
                *visitor == *old(visitor),
                predicate_total::<K, V, (), E, P>(*visitor),
                all_answer::<K, V, (), E, P>(*visitor, self.leaves@, index as int, ()),
            decreases self.leaves.len() - index,
        {
            let entry: &(K, V) = &self.leaves[index];
            let answer: Result<(), E> = visitor(&entry.0, &entry.1);
            proof {
                assert(answers::<K, V, (), E, P>(*visitor, self.leaves@[index as int], answer));
            }
            match answer {
                Ok(done) => {
                    proof {
                        assert(done == ());
                    }
                },
                Err(error) => {
                    proof {
                        assert forall|tall: nat, store: spec_fn(StructuralHash) -> HamtNode<K, V>|
                            #![trigger loadable(load, store, *self, tall + 1)]
                            loadable(load, store, *self, tall + 1) implies first_failure::<
                            K,
                            V,
                            (),
                            F,
                            E,
                            P,
                        >(*resolver, *visitor, *self, store, tall + 1, (), error) by {
                            passes_to_leaf::<K, V, (), F, E, P>(
                                *resolver,
                                *visitor,
                                *self,
                                store,
                                tall + 1,
                                index as int,
                                (),
                            );
                        }
                    }
                    return Err(error);
                },
            }
            index = index + 1;
        }
        let mut place: usize = 0;
        while place < self.children.len()
            invariant
                place <= self.children.len(),
                *resolver == *old(resolver),
                *visitor == *old(visitor),
                load == loader::<K, V, E, F>(*resolver),
                resolver_total::<K, V, E, F>(*resolver),
                predicate_total::<K, V, (), E, P>(*visitor),
                shallow(load, *self, height),
                forall|tall: nat, store: spec_fn(StructuralHash) -> HamtNode<K, V>|
                    #![trigger loadable(load, store, *self, tall + 1)]
                    shallow(load, *self, tall) && loadable(load, store, *self, tall + 1)
                        ==> passed_upto::<K, V, (), F, E, P>(
                        *resolver,
                        *visitor,
                        *self,
                        store,
                        tall + 1,
                        place as nat,
                        (),
                    ),
            decreases self.children.len() - place,
        {
            let child_ref: &NodeRef<K, V> = &self.children[place];
            let child: Arc<HamtNode<K, V>> = match resolve_node(child_ref, resolver) {
                Ok(node) => node,
                Err(error) => {
                    proof {
                        assert forall|tall: nat, store: spec_fn(StructuralHash) -> HamtNode<K, V>|
                            #![trigger loadable(load, store, *self, tall + 1)]
                            shallow(load, *self, tall) && loadable(
                                load,
                                store,
                                *self,
                                tall + 1,
                            ) implies first_failure::<K, V, (), F, E, P>(
                            *resolver,
                            *visitor,
                            *self,
                            store,
                            tall + 1,
                            (),
                            error,
                        ) by {
                            failure_at::<K, V, (), F, E, P>(
                                *resolver,
                                *visitor,
                                *self,
                                store,
                                tall + 1,
                                place as int,
                                (),
                                error,
                            );
                        }
                    }
                    return Err(error);
                },
            };
            let loaded: &HamtNode<K, V> = &*child;
            proof {
                assert(self.children@[place as int] == *child_ref);
                assert(height > 0);
                assert(shallow(load, *loaded, (height - 1) as nat));
            }
            let below: Result<(), E> = child.visit_entries_inner(
                resolver,
                visitor,
                Ghost((height - 1) as nat),
            );
            proof {
                assert forall|tall: nat, store: spec_fn(StructuralHash) -> HamtNode<K, V>|
                    #![trigger loadable(load, store, *self, tall + 1)]
                    shallow(load, *self, tall) && loadable(
                        load,
                        store,
                        *self,
                        tall + 1,
                    ) implies visit_step::<K, V, F, E, P>(
                    *resolver,
                    *visitor,
                    *self,
                    store,
                    tall,
                    place as int,
                    below,
                ) by {
                    assert(self.children@[place as int] == *child_ref);
                    assert(*loaded == node_at(self.children@[place as int], store));
                    visit_step_holds::<K, V, F, E, P>(
                        *resolver,
                        *visitor,
                        *self,
                        store,
                        tall,
                        place as int,
                        below,
                    );
                }
            }
            match below {
                Ok(_) => {},
                Err(error) => {
                    return Err(error);
                },
            }
            place = place + 1;
        }
        Ok(())
    }

    /// Visits every key/value pair in the trie, resolving lazy children as
    /// needed.
    ///
    /// This is the reusable traversal primitive for callers that need to
    /// stream or collect the full contents of a subtree. The walk has no depth
    /// limit of its own, so the nodes that can be loaded must not form a cycle.
    ///
    /// # Errors
    /// Returns the error from either `resolver` or `visitor`.
    pub fn visit_entries<F, E, P>(&self, resolver: &mut F, visitor: &mut P) -> (visited: Result<
        (),
        E,
    >) where
        F: FnMut(&StructuralHash) -> Result<Arc<HamtNode<K, V>>, E>,
        P: FnMut(&K, &V) -> Result<(), E>,

        requires
            resolver_total::<K, V, E, F>(*old(resolver)),
            predicate_total::<K, V, (), E, P>(*old(visitor)),
            exists|height: nat| shallow(loader::<K, V, E, F>(*old(resolver)), *self, height),
        ensures
            *final(resolver) == *old(resolver),
            *final(visitor) == *old(visitor),
            visit_outcome::<K, V, F, E, P>(*old(resolver), *old(visitor), *self, visited),
    {
        let ghost height = choose|height: nat|
            shallow(loader::<K, V, E, F>(*resolver), *self, height);
        self.visit_entries_inner(resolver, visitor, Ghost(height))
    }
}

} // verus!
