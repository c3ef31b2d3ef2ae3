//! What the results of comparing, persisting, marking and descending say of the tries.

use vstd::prelude::*;
use std::sync::Arc;
use crate::bitmaps::bitmap_set;
use crate::bytes::{be_bytes_len, byte_range_values, le_bytes, le_value, le_value_of_bytes};
use super::audit::{
    descends_to, distinct_members, indexes, is_descent, marking, partitions, pictures, reached_from,
    BitmapReachabilityAudit, NodeReachabilityAudit,
};
use super::bitmap::rank;
use super::codec::{HamtCodec, HamtKey};
use super::construct::same_path;
use super::delta::{delta_outcome, hash_list, node_delta_outcome, DeltaResult, NodeHashDelta};
use super::delta_laws::{copies, diff_lists_differences, once};
use super::descend::{
    answers_of, beyond_reach, descended, level_answers, mixed_depths, queued, told, Answers,
    DescendError, DescendResult, Fate, RequestedNode,
};
use super::gc::occurrences;
use super::gc_laws::{no_collisions, node_delta_is_exact};
use super::hash::{keyed_hash, keyed_input, StructuralHash};
use super::laws::{faithful, in_entries, lookup_after_insert, lookup_after_remove};
use super::mutate::{along, displaced, insert_outcome, path_end, sound, HamtMutateError, PathEnd};
use super::node::{
    canonical, default_route, hash_views, holds, loader, lookup, node_digest, node_domain, readable,
    HamtNode,
};
use super::persist::{decode_error, layout_error, legacy_error, parse_leaves, PersistedInternalNode};
use super::store::{
    batch_of, batch_records, chain_records, created_records, has_record, persist_outcome,
    records_of, root_before, ChainStep, Persisted, PersistedBatch,
};
use super::walk::{
    all_answer, answers, entry_list, loadable, passes_to, shallow, visit_outcome,
    HamtTraversalError, Stop,
};

verus! {

/// A comparison that succeeds lists as removed, once each, exactly the entries of the
/// first trie that the second has not, and as added, once each, those of the second that
/// the first has not.
pub proof fn compared_entries<K: HamtCodec, V: HamtCodec, F, E>(
    resolver: F,
    a: HamtNode<K, V>,
    b: HamtNode<K, V>,
    store: spec_fn(StructuralHash) -> HamtNode<K, V>,
    route: spec_fn(Seq<u8>) -> Seq<u8>,
    structural_key: Seq<u8>,
    result: DeltaResult<K, V, HamtTraversalError<E>>,
    key: Seq<u8>,
    value: Seq<u8>,
) where F: FnMut(&StructuralHash) -> Result<Arc<HamtNode<K, V>>, E>
    requires
        delta_outcome::<K, V, F, E>(resolver, a, b, result),
        readable(loader::<K, V, E, F>(resolver), store, a, 52),
        readable(loader::<K, V, E, F>(resolver), store, b, 52),
        canonical(a, store, route, structural_key, 0),
        canonical(b, store, route, structural_key, 0),
        faithful(a, b, store, 0),
    ensures
        result matches Ok((added, removed)) ==> {
            let in_a = holds(a, store, key, value, 0);
            let in_b = holds(b, store, key, value, 0);
            &&& in_entries(removed@, key, value) <==> in_a && !in_b
            &&& in_entries(added@, key, value) <==> in_b && !in_a
            &&& copies(removed@, key, value) == once(in_a && !in_b)
            &&& copies(added@, key, value) == once(in_b && !in_a)
        },
        a.structural_hash@ == b.structural_hash@ ==> (result matches Ok((added, removed))
            && added@.len() == 0 && removed@.len() == 0),
        result matches Err(HamtTraversalError::MaxDepthExceeded { depth }) ==> depth == 52,
{
    if let Ok((added, removed)) = result {
        diff_lists_differences(
            a,
            b,
            store,
            route,
            structural_key,
            added@,
            removed@,
            key,
            value,
        );
    }
}

/// A comparison of nodes that succeeds lists as superseded the nodes of the first trie
/// that the second has not, and as new those of the second that the first has not.
pub proof fn compared_nodes<K: HamtCodec, V: HamtCodec, F, E>(
    resolver: F,
    a: HamtNode<K, V>,
    b: HamtNode<K, V>,
    store: spec_fn(StructuralHash) -> HamtNode<K, V>,
    route: spec_fn(Seq<u8>) -> Seq<u8>,
    structural_key: Seq<u8>,
    result: Result<NodeHashDelta, HamtTraversalError<E>>,
    hash: Seq<u8>,
) where F: FnMut(&StructuralHash) -> Result<Arc<HamtNode<K, V>>, E>
    requires
        node_delta_outcome::<K, V, F, E>(resolver, a, b, result),
        readable(loader::<K, V, E, F>(resolver), store, a, 52),
        readable(loader::<K, V, E, F>(resolver), store, b, 52),
        canonical(a, store, route, structural_key, 0),
        canonical(b, store, route, structural_key, 0),
        no_collisions(a, b, store),
    ensures
        result matches Ok(delta) ==> {
            let in_a = hash_views(hash_list(a, store, 52)).contains(hash);
            let in_b = hash_views(hash_list(b, store, 52)).contains(hash);
            &&& hash_views(delta.superseded_node_hashes@).contains(hash) <==> in_a && !in_b
            &&& hash_views(delta.new_node_hashes@).contains(hash) <==> in_b && !in_a
        },
        a.structural_hash@ == b.structural_hash@ ==> (result matches Ok(delta)
            && delta.superseded_node_hashes@.len() == 0 && delta.new_node_hashes@.len() == 0),
        result matches Err(HamtTraversalError::MaxDepthExceeded { depth }) ==> depth == 52,
{
    if let Ok(delta) = result {
        node_delta_is_exact(a, b, store, route, structural_key, delta, hash);
    }
}

/// The hash is one of the list.
pub open spec fn listed(hashes: Seq<StructuralHash>, hash: Seq<u8>) -> bool {
    exists|i: int| 0 <= i < hashes.len() && (#[trigger] hashes[i])@ == hash
}

/// The record is one of the first ones, and none before it has its hash.
pub open spec fn first_with(
    records: Seq<(Seq<u8>, Seq<u8>)>,
    n: nat,
    record: (Seq<u8>, Seq<u8>),
) -> bool {
    exists|i: int| 0 <= i < n && #[trigger] records[i] == record && new_at(records, i)
}

/// No record before the place has the hash of the one there.
pub open spec fn new_at(records: Seq<(Seq<u8>, Seq<u8>)>, i: int) -> bool {
    forall|k: int| 0 <= k < i ==> (#[trigger] records[k]).0 != records[i].0
}

proof fn listed_is_viewed(hashes: Seq<StructuralHash>, hash: Seq<u8>)
    ensures
        hash_views(hashes).contains(hash) <==> listed(hashes, hash),
{
    if hash_views(hashes).contains(hash) {
        let i = hash_views(hashes).index_of(hash);
        assert(hashes[i]@ == hash);
    }
    if listed(hashes, hash) {
        let i = choose|i: int| 0 <= i < hashes.len() && (#[trigger] hashes[i])@ == hash;
        assert(hash_views(hashes)[i] == hash);
    }
}

/// Every hash that is asked for and that a record has is that of a selected record.
pub proof fn records_are_complete(
    records: Seq<(Seq<u8>, Seq<u8>)>,
    hashes: Seq<StructuralHash>,
    n: nat,
    i: int,
)
    requires
        n <= records.len(),
        0 <= i < n,
        listed(hashes, records[i].0),
    ensures
        exists|j: int|
            0 <= j < records_of(records, hashes, n).len() && (#[trigger] records_of(
                records,
                hashes,
                n,
            )[j]).0 == records[i].0,
    decreases n,
{
    let before = records_of(records, hashes, (n - 1) as nat);
    let chosen = records_of(records, hashes, n);
    listed_is_viewed(hashes, records[n - 1].0);
    if i < n - 1 {
        records_are_complete(records, hashes, (n - 1) as nat, i);
        let j = choose|j: int| 0 <= j < before.len() && (#[trigger] before[j]).0 == records[i].0;
        assert(chosen[j].0 == records[i].0);
    } else if has_record(before, records[i].0) {
        let j = choose|j: int| 0 <= j < before.len() && (#[trigger] before[j]).0 == records[i].0;
        assert(chosen[j].0 == records[i].0);
    } else {
        assert(chosen[before.len() as int].0 == records[i].0);
    }
}

/// A selected record has a hash that is asked for, and is the first with it.
pub proof fn records_are_first(
    records: Seq<(Seq<u8>, Seq<u8>)>,
    hashes: Seq<StructuralHash>,
    n: nat,
    j: int,
)
    requires
        n <= records.len(),
        0 <= j < records_of(records, hashes, n).len(),
    ensures
        listed(hashes, records_of(records, hashes, n)[j].0),
        first_with(records, n, records_of(records, hashes, n)[j]),
    decreases n,
{
    let before = records_of(records, hashes, (n - 1) as nat);
    let chosen = records_of(records, hashes, n);
    let record = records[n - 1];
    listed_is_viewed(hashes, record.0);
    if j < before.len() {
        records_are_first(records, hashes, (n - 1) as nat, j);
        assert(chosen[j] == before[j]);
        let i = choose|i: int|
            0 <= i < n - 1 && #[trigger] records[i] == before[j] && new_at(records, i);
        assert(records[i] == chosen[j]);
    } else {
        assert(chosen[j] == record);
        assert forall|k: int| 0 <= k < n - 1 implies (#[trigger] records[k]).0 != record.0 by {
            if records[k].0 == record.0 {
                records_are_complete(records, hashes, (n - 1) as nat, k);
                let l = choose|l: int|
                    0 <= l < before.len() && (#[trigger] before[l]).0 == records[k].0;
                assert(before[l].0 == record.0);
            }
        }
        assert(new_at(records, n - 1));
        assert(records[n - 1] == chosen[j]);
    }
}

/// No two selected records have the same hash.
pub proof fn records_are_distinct(
    records: Seq<(Seq<u8>, Seq<u8>)>,
    hashes: Seq<StructuralHash>,
    n: nat,
    j: int,
    k: int,
)
    requires
        n <= records.len(),
        0 <= j < k < records_of(records, hashes, n).len(),
    ensures
        records_of(records, hashes, n)[j].0 != records_of(records, hashes, n)[k].0,
    decreases n,
{
    let before = records_of(records, hashes, (n - 1) as nat);
    let chosen = records_of(records, hashes, n);
    assert(chosen[j] == before[j]);
    if k < before.len() {
        records_are_distinct(records, hashes, (n - 1) as nat, j, k);
        assert(chosen[k] == before[k]);
    } else {
        assert(chosen[k] == records[n - 1]);
        assert(before[j].0 != chosen[k].0);
    }
}

proof fn chain_record_of_step<K, V>(steps: Seq<ChainStep<K, V>>, n: nat, j: int)
    requires
        n <= steps.len(),
        0 <= j < chain_records(steps, n).len(),
    ensures
        exists|i: int, k: int|
            0 <= i < n && 0 <= k < steps[i].created@.len() && #[trigger] chain_records(steps, n)[j]
                == (steps[i].created@[k].0@, #[trigger] steps[i].created@[k].1@),
    decreases n,
{
    let before = chain_records(steps, (n - 1) as nat);
    let own = created_records(steps[n - 1].created@);
    if j < before.len() {
        chain_record_of_step(steps, (n - 1) as nat, j);
        let (i, k) = choose|i: int, k: int|
            0 <= i < n - 1 && 0 <= k < steps[i].created@.len() && #[trigger] before[j] == (
                steps[i].created@[k].0@,
                #[trigger] steps[i].created@[k].1@,
            );
        assert(chain_records(steps, n)[j] == before[j]);
        assert(before[j] == (steps[i].created@[k].0@, steps[i].created@[k].1@));
    } else {
        let k = j - before.len();
        assert(chain_records(steps, n)[j] == own[k]);
        assert(own[k] == (
            steps[n - 1].created@[k].0@,
            steps[n - 1].created@[k].1@,
        ));
    }
}

/// A batch ends in the root of its last step, tells of each step what it displaced, and
/// has created only nodes that a step created, no hash twice; where the last root has the
/// hash of the first it has created nothing.
pub proof fn batch_by_steps<K: HamtCodec, V: HamtCodec>(
    load: spec_fn(StructuralHash, HamtNode<K, V>) -> bool,
    store: spec_fn(StructuralHash) -> HamtNode<K, V>,
    prev_root: HamtNode<K, V>,
    steps: Seq<ChainStep<K, V>>,
    batch: PersistedBatch<K, V>,
)
    requires
        batch_of(load, prev_root, steps, batch),
        readable(load, store, prev_root, 52),
    ensures
        steps.len() == 0 ==> *batch.0 == prev_root && batch.2@.len() == 0,
        steps.len() > 0 ==> *batch.0 == *steps.last().root,
        batch.1@.len() == steps.len(),
        forall|i: int| 0 <= i < steps.len() ==> #[trigger] batch.1@[i] == steps[i].displaced,
        batch.0.structural_hash@ == prev_root.structural_hash@ ==> batch.2@.len() == 0,
        forall|j: int|
            0 <= j < batch.2@.len() ==> exists|i: int, k: int|
                0 <= i < steps.len() && 0 <= k < steps[i].created@.len() && (
                #[trigger] batch.2@[j]).0@ == steps[i].created@[k].0@ && batch.2@[j].1@ == (
                #[trigger] steps[i].created@[k]).1@,
        forall|j: int, k: int|
            0 <= j < k < batch.2@.len() ==> (#[trigger] batch.2@[j]).0@ != (
            #[trigger] batch.2@[k]).0@,
{
    let n = steps.len();
    let created = created_records(batch.2@);
    assert(created == batch_records(prev_root, steps, store));
    assert(created.len() == batch.2@.len());
    let last = root_before(prev_root, steps, n as int);
    if last.structural_hash@ != prev_root.structural_hash@ {
        let records = chain_records(steps, n);
        let hashes = super::delta::hash_diff_upto(prev_root, last, store, 52, 32).1;
        assert(created == records_of(records, hashes, records.len()));
        assert forall|j: int| 0 <= j < batch.2@.len() implies exists|i: int, k: int|
            0 <= i < steps.len() && 0 <= k < steps[i].created@.len() && (
            #[trigger] batch.2@[j]).0@ == steps[i].created@[k].0@ && batch.2@[j].1@ == (
            #[trigger] steps[i].created@[k]).1@ by {
            assert(created[j] == (batch.2@[j].0@, batch.2@[j].1@));
            records_are_first(records, hashes, records.len(), j);
            let r = choose|r: int| 0 <= r < records.len() && #[trigger] records[r] == created[j];
            chain_record_of_step(steps, n, r);
            let (i, k) = choose|i: int, k: int|
                0 <= i < n && 0 <= k < steps[i].created@.len() && #[trigger] chain_records(
                    steps,
                    n,
                )[r] == (steps[i].created@[k].0@, #[trigger] steps[i].created@[k].1@);
            assert(records[r] == (steps[i].created@[k].0@, steps[i].created@[k].1@));
            assert(batch.2@[j].1@ == steps[i].created@[k].1@);
        }
        assert forall|j: int, k: int| 0 <= j < k < batch.2@.len() implies (
        #[trigger] batch.2@[j]).0@ != (#[trigger] batch.2@[k]).0@ by {
            records_are_distinct(records, hashes, records.len(), j, k);
            assert(created[j].0 != created[k].0);
        }
    }
}

/// What marking has seen are the roots and all that they refer to, directly or not, and
/// nothing else.
pub proof fn marked_is_closure<K, V, F, E>(
    resolver: F,
    roots: Seq<Arc<HamtNode<K, V>>>,
    store: spec_fn(StructuralHash) -> HamtNode<K, V>,
    graph: spec_fn(Seq<u8>) -> Seq<Seq<u8>>,
    seen: Set<Seq<u8>>,
    other: Set<Seq<u8>>,
) where F: FnMut(&StructuralHash) -> Result<Arc<HamtNode<K, V>>, E>
    requires
        marking::<K, V, F, E>(resolver, roots, Ok(seen)),
        pictures(loader::<K, V, E, F>(resolver), graph, store, roots),
    ensures
        forall|i: int| 0 <= i < roots.len() ==> seen.contains((#[trigger] roots[i]).structural_hash@),
        forall|h: Seq<u8>, i: int|
            seen.contains(h) && 0 <= i < graph(h).len() ==> seen.contains(#[trigger] graph(h)[i]),
        (forall|i: int|
            0 <= i < roots.len() ==> other.contains((#[trigger] roots[i]).structural_hash@)) && (
        forall|h: Seq<u8>, i: int|
            other.contains(h) && 0 <= i < graph(h).len() ==> other.contains(#[trigger] graph(h)[i]))
            ==> seen.subset_of(other),
{
    let load = loader::<K, V, E, F>(resolver);
    assert(pictures(load, graph, store, roots));
    assert forall|h: Seq<u8>| #[trigger] seen.contains(h) <==> reached_from(graph, roots, h) by {
        let result: Result<Set<Seq<u8>>, HamtTraversalError<E>> = Ok(seen);
        assert(marking::<K, V, F, E>(resolver, roots, result));
        assert(result is Ok && result->Ok_0 == seen);
    }
    assert forall|i: int| 0 <= i < roots.len() implies seen.contains(
        (#[trigger] roots[i]).structural_hash@,
    ) by {
        let hash = roots[i].structural_hash@;
        let path = seq![hash];
        assert(is_descent(graph, path) && path[0] == hash && path.last() == hash);
        assert(descends_to(graph, roots[i].structural_hash@, hash));
        assert(reached_from(graph, roots, hash));
    }
    assert forall|h: Seq<u8>, i: int| seen.contains(h) && 0 <= i < graph(h).len() implies
        seen.contains(#[trigger] graph(h)[i]) by {
        assert(reached_from(graph, roots, h));
        let r = choose|r: int|
            0 <= r < roots.len() && descends_to(
                graph,
                (#[trigger] roots[r]).structural_hash@,
                h,
            );
        let path = choose|path: Seq<Seq<u8>>| #[trigger]
            is_descent(graph, path) && path[0] == roots[r].structural_hash@ && path.last() == h;
        let next = graph(h)[i];
        let longer = path.push(next);
        assert forall|k: int| 0 <= k < longer.len() - 1 implies graph(
            #[trigger] longer[k],
        ).contains(longer[k + 1]) by {
            if k < path.len() - 1 {
                assert(graph(path[k]).contains(path[k + 1]));
            }
        }
        assert(is_descent(graph, longer) && longer[0] == roots[r].structural_hash@
            && longer.last() == next);
        assert(reached_from(graph, roots, next));
    }
    if (forall|i: int|
        0 <= i < roots.len() ==> other.contains((#[trigger] roots[i]).structural_hash@)) && (
    forall|h: Seq<u8>, i: int|
        other.contains(h) && 0 <= i < graph(h).len() ==> other.contains(#[trigger] graph(h)[i])) {
        assert forall|h: Seq<u8>| seen.contains(h) implies #[trigger] other.contains(h) by {
            assert(reached_from(graph, roots, h));
            let r = choose|r: int|
                0 <= r < roots.len() && descends_to(
                    graph,
                    (#[trigger] roots[r]).structural_hash@,
                    h,
                );
            let path = choose|path: Seq<Seq<u8>>| #[trigger]
                is_descent(graph, path) && path[0] == roots[r].structural_hash@ && path.last()
                    == h;
            descent_stays(graph, other, path, path.len() as int - 1);
        }
    }
}

proof fn descent_stays(
    graph: spec_fn(Seq<u8>) -> Seq<Seq<u8>>,
    set: Set<Seq<u8>>,
    path: Seq<Seq<u8>>,
    n: int,
)
    requires
        is_descent(graph, path),
        set.contains(path[0]),
        forall|h: Seq<u8>, i: int|
            set.contains(h) && 0 <= i < graph(h).len() ==> set.contains(#[trigger] graph(h)[i]),
        0 <= n < path.len(),
    ensures
        set.contains(path[n]),
    decreases n,
{
    if n > 0 {
        descent_stays(graph, set, path, n - 1);
        assert(graph(path[n - 1]).contains(path[n - 1 + 1]));
        let i = graph(path[n - 1]).index_of(path[n]);
        assert(graph(path[n - 1])[i] == path[n]);
    }
}

/// An audit has each known hash in one of its two bitmaps, and nothing else: in that of
/// the reachable ones exactly where it was seen.
pub proof fn audit_by_hashes(audit: BitmapReachabilityAudit, seen: Set<Seq<u8>>, b: u32)
    requires
        indexes(audit, seen),
    ensures
        ({
            let known = b < audit.universe.hashes@.len();
            let reachable = bitmap_set(audit.reachable).contains(b);
            let unreachable = bitmap_set(audit.unreachable).contains(b);
            &&& reachable || unreachable <==> known
            &&& !(reachable && unreachable)
            &&& known ==> (reachable <==> seen.contains(audit.universe.hashes@[b as int]@))
        }),
{
}

/// A decoded node stands under a storage key exactly where no slot is both a leaf and a
/// child, leaves and children are as many as their slots, and its contents hash to the
/// key.
pub proof fn verified_by_contents<K: HamtCodec, V: HamtCodec>(
    node: PersistedInternalNode<K, V>,
    structural_key: Seq<u8>,
    expected_hash: Seq<u8>,
)
    ensures
        node.verify_error(structural_key, expected_hash) is None <==> {
            &&& node.datamap & node.nodemap == 0
            &&& node.leaves@.len() == rank(node.datamap, 32)
            &&& node.child_hashes@.len() == rank(node.nodemap, 32)
            &&& node_digest(
                structural_key,
                node.datamap,
                node.nodemap,
                node.leaves@,
                hash_views(node.child_hashes@),
            ) == expected_hash
        },
{
}

proof fn answered_nodes<K: HamtCodec, V: HamtCodec, F>(
    key_hash: F,
    structural_key: Seq<u8>,
    requests: Seq<RequestedNode<'_>>,
    n: nat,
    after: Answers,
    i: int,
) where F: FnMut(&K) -> StructuralHash
    requires
        level_answers::<K, V, F>(key_hash, structural_key, requests, n, after),
        0 <= i < n,
        n <= requests.len(),
    ensures
        decode_error::<K, V>(requests[i].1@) is None,
        keyed_hash(structural_key, node_domain() + requests[i].1@) == requests[i].0@,
    decreases n,
{
    let (before, node) = choose|before: Answers, node: HamtNode<K, V>|
        {
            &&& level_answers::<K, V, F>(
                key_hash,
                structural_key,
                requests,
                (n - 1) as nat,
                before,
            )
            &&& #[trigger] answers_of(
                key_hash,
                structural_key,
                requests[n - 1],
                node,
                before,
                after,
            )
        };
    if i < n - 1 {
        answered_nodes::<K, V, F>(
            key_hash,
            structural_key,
            requests,
            (n - 1) as nat,
            before,
            i,
        );
    }
}

/// A level is descended only where its nodes are all of one depth that routing hashes
/// reach, well formed, and those of the hashes that were asked for.
pub proof fn descended_nodes<K: HamtCodec, V: HamtCodec, F>(
    key_hash: F,
    structural_key: Seq<u8>,
    requests: Seq<RequestedNode<'_>>,
    result: Result<DescendResult<V>, DescendError>,
    i: int,
) where F: FnMut(&K) -> StructuralHash
    requires
        descended::<K, V, F>(key_hash, structural_key, requests, result),
        result is Ok,
        0 <= i < requests.len(),
    ensures
        requests[i].2 == requests[0].2,
        requests[i].2 < 52,
        decode_error::<K, V>(requests[i].1@) is None,
        keyed_hash(structural_key, node_domain() + requests[i].1@) == requests[i].0@,
{
    assert(!mixed_depths(requests));
    assert(!beyond_reach(requests));
    assert(requests[i].2 == requests[0].2);
    answered_nodes::<K, V, F>(
        key_hash,
        structural_key,
        requests,
        requests.len(),
        result->Ok_0.answers(),
        i,
    );
}

/// The routing hash waits for the child.
pub open spec fn waits(pending: Seq<(Seq<u8>, Seq<Seq<u8>>)>, child: Seq<u8>, wanted: Seq<u8>) -> bool {
    exists|i: int|
        0 <= i < pending.len() && (#[trigger] pending[i]).0 == child && pending[i].1.contains(
            wanted,
        )
}

/// How many routing hashes wait.
pub open spec fn waiting(pending: Seq<(Seq<u8>, Seq<Seq<u8>>)>) -> nat
    decreases pending.len(),
{
    if pending.len() == 0 {
        0
    } else {
        pending.first().1.len() + waiting(pending.drop_first())
    }
}

/// No child is listed twice.
pub open spec fn children_once(pending: Seq<(Seq<u8>, Seq<Seq<u8>>)>) -> bool {
    forall|i: int, j: int|
        0 <= i < j < pending.len() ==> (#[trigger] pending[i]).0 != (#[trigger] pending[j]).0
}

/// A routing hash that leads to a child waits for it, beside all that waited before. One
/// more waits, and a child is still listed once.
pub proof fn queued_waits(
    pending: Seq<(Seq<u8>, Seq<Seq<u8>>)>,
    child: Seq<u8>,
    wanted: Seq<u8>,
    other: Seq<u8>,
    path: Seq<u8>,
)
    requires
        children_once(pending),
    ensures
        waits(queued(pending, child, wanted), other, path) <==> waits(pending, other, path) || (
        other == child && path == wanted),
        waiting(queued(pending, child, wanted)) == waiting(pending) + 1,
        children_once(queued(pending, child, wanted)),
    decreases pending.len(),
{
    let after = queued(pending, child, wanted);
    if pending.len() == 0 {
        assert(after[0].1 == seq![wanted]);
        assert(seq![wanted].contains(path) <==> path == wanted) by {
            assert(seq![wanted][0] == wanted);
        }
        assert(after.drop_first() =~= Seq::empty());
        reveal_with_fuel(waiting, 2);
        if other == child && path == wanted {
            assert(after[0].0 == other && after[0].1.contains(path));
        }
    } else {
        let first = pending.first();
        let rest = pending.drop_first();
        assert forall|i: int, j: int| 0 <= i < j < rest.len() implies (#[trigger] rest[i]).0 != (
        #[trigger] rest[j]).0 by {
            assert(pending[i + 1].0 != pending[j + 1].0);
        }
        waits_split(pending, other, path);
        waits_split(after, other, path);
        if first.0 == child {
            assert(after.first() == (child, first.1.push(wanted)));
            assert(after.drop_first() =~= rest);
            let longer = first.1.push(wanted);
            assert(longer.contains(path) <==> first.1.contains(path) || path == wanted) by {
                if first.1.contains(path) {
                    let i = first.1.index_of(path);
                    assert(longer[i] == path);
                }
                assert(longer[first.1.len() as int] == wanted);
            }
            assert forall|i: int, j: int| 0 <= i < j < after.len() implies (
            #[trigger] after[i]).0 != (#[trigger] after[j]).0 by {
                assert(pending[i].0 == after[i].0);
                assert(pending[j].0 == after[j].0);
            }
        } else {
            queued_waits(rest, child, wanted, other, path);
            let tail = queued(rest, child, wanted);
            assert(after.first() == first);
            assert(after.drop_first() =~= tail);
            assert forall|i: int, j: int| 0 <= i < j < after.len() implies (
            #[trigger] after[i]).0 != (#[trigger] after[j]).0 by {
                assert(after[j] == tail[j - 1]);
                if i > 0 {
                    assert(after[i] == tail[i - 1]);
                } else {
                    assert(tail[j - 1].0 != first.0) by {
                        queued_children(rest, child, wanted, j - 1);
                        if tail[j - 1].0 != child {
                            let k = choose|k: int|
                                0 <= k < rest.len() && (#[trigger] rest[k]).0 == tail[j - 1].0;
                            assert(pending[0].0 != pending[k + 1].0);
                        }
                    }
                }
            }
        }
    }
}

proof fn queued_children(
    pending: Seq<(Seq<u8>, Seq<Seq<u8>>)>,
    child: Seq<u8>,
    wanted: Seq<u8>,
    j: int,
)
    requires
        0 <= j < queued(pending, child, wanted).len(),
    ensures
        queued(pending, child, wanted)[j].0 == child || exists|k: int|
            0 <= k < pending.len() && (#[trigger] pending[k]).0 == queued(
                pending,
                child,
                wanted,
            )[j].0,
    decreases pending.len(),
{
    if pending.len() > 0 {
        let rest = pending.drop_first();
        if pending.first().0 == child {
            if j > 0 {
                assert(pending[j].0 == queued(pending, child, wanted)[j].0);
            }
        } else if j == 0 {
            assert(pending[0].0 == queued(pending, child, wanted)[0].0);
        } else {
            queued_children(rest, child, wanted, j - 1);
            if queued(rest, child, wanted)[j - 1].0 != child {
                let k = choose|k: int|
                    0 <= k < rest.len() && (#[trigger] rest[k]).0 == queued(
                        rest,
                        child,
                        wanted,
                    )[j - 1].0;
                assert(pending[k + 1].0 == rest[k].0);
            }
        }
    }
}

proof fn waits_split(
    pending: Seq<(Seq<u8>, Seq<Seq<u8>>)>,
    child: Seq<u8>,
    wanted: Seq<u8>,
)
    requires
        pending.len() > 0,
    ensures
        waits(pending, child, wanted) <==> (pending.first().0 == child
            && pending.first().1.contains(wanted)) || waits(pending.drop_first(), child, wanted),
{
    let rest = pending.drop_first();
    if waits(pending, child, wanted) {
        let i = choose|i: int|
            0 <= i < pending.len() && (#[trigger] pending[i]).0 == child
                && pending[i].1.contains(wanted);
        if i > 0 {
            assert(rest[i - 1] == pending[i]);
        }
    }
    if waits(rest, child, wanted) {
        let i = choose|i: int|
            0 <= i < rest.len() && (#[trigger] rest[i]).0 == child && rest[i].1.contains(wanted);
        assert(pending[i + 1] == rest[i]);
    }
    if pending.first().0 == child && pending.first().1.contains(wanted) {
        assert(pending[0].0 == child);
    }
}

/// The node behind a shared root.
spec fn behind<K, V>(root: Arc<HamtNode<K, V>>) -> HamtNode<K, V> {
    *root
}

/// After a mutation that is persisted a lookup finds the new value for the key, or nothing
/// where it was removed, and for every other key what it found before. Where the root has
/// kept its hash nothing was created.
pub proof fn persisted_lookup<K: HamtCodec, V: HamtCodec, F, E>(
    hashes: spec_fn(Seq<u8>, StructuralHash) -> bool,
    resolver: F,
    node: HamtNode<K, V>,
    store: spec_fn(StructuralHash) -> HamtNode<K, V>,
    route: spec_fn(Seq<u8>) -> Seq<u8>,
    structural_key: Seq<u8>,
    key: Seq<u8>,
    value: Option<Seq<u8>>,
    persisted: Persisted<K, V>,
    asked: Seq<u8>,
) where F: FnMut(&StructuralHash) -> Result<Arc<HamtNode<K, V>>, E>
    requires
        readable(loader::<K, V, E, F>(resolver), store, node, 52),
        canonical(node, store, route, structural_key, 0),
        along(hashes, route),
        persist_outcome::<K, V, F, E>(
            hashes,
            resolver,
            node,
            structural_key,
            route(key),
            key,
            value,
            Ok(persisted),
        ),
    ensures
        lookup(*persisted.0, store, route(asked), asked, 0) == if asked == key {
            value
        } else {
            lookup(node, store, route(asked), asked, 0)
        },
        persisted.0.structural_hash@ == node.structural_hash@ ==> persisted.2@.len() == 0,
{
    let load = loader::<K, V, E, F>(resolver);
    assert((52 - 0nat) as nat == 52nat);
    assert(sound(load, node, store, route, structural_key, 0));
    match value {
        Some(held) => {
            lookup_after_insert(
                node,
                behind(persisted.0),
                store,
                route,
                structural_key,
                key,
                held,
                asked,
            );
        },
        None => {
            lookup_after_remove(node, behind(persisted.0), store, route, structural_key, key, asked);
        },
    }
    assert(created_records(persisted.2@).len() == persisted.2@.len());
}

/// The bytes of a node are well formed exactly where its header has no slot twice and counts
/// the slots rightly, its leaves can be read, and its hashes end with the bytes.
pub proof fn layout_by_bytes<K: HamtCodec, V: HamtCodec>(buf: Seq<u8>, width: nat)
    requires
        buf.len() <= usize::MAX,
    ensures
        layout_error::<K, V>(buf, width) is None <==> buf.len() >= 17 && {
            let datamap = le_value(buf.subrange(1, 5)) as u32;
            let nodemap = le_value(buf.subrange(5, 9)) as u32;
            let leaves = le_value(buf.subrange(9, 13));
            let children = le_value(buf.subrange(13, 17));
            let end = parse_leaves::<K, V>(buf, 17, leaves);
            &&& datamap & nodemap == 0
            &&& leaves == rank(datamap, 32)
            &&& children == rank(nodemap, 32)
            &&& end.1 is None
            &&& end.0 + width * children == buf.len()
        },
{
}

/// A node is read only under the current version, with hashes of 32 bytes, and as a legacy
/// node only under the first one, with hashes of 16.
pub proof fn versions_by_byte<K: HamtCodec, V: HamtCodec>(buf: Seq<u8>)
    ensures
        decode_error::<K, V>(buf) is None <==> buf.len() > 0 && buf[0] == 2 && layout_error::<K, V>(
            buf,
            32,
        ) is None,
        legacy_error::<K, V>(buf) is None <==> buf.len() > 0 && buf[0] == 1 && layout_error::<K, V>(
            buf,
            16,
        ) is None,
{
}

/// A visit that succeeds has every entry pass, in the order of a walk. One that fails does so
/// for the first entry that does not pass, or for a node that could not be loaded, after the
/// entries before it have passed.
pub proof fn visited_entries<K, V, F, E, P>(
    resolver: F,
    visitor: P,
    node: HamtNode<K, V>,
    store: spec_fn(StructuralHash) -> HamtNode<K, V>,
    height: nat,
    visited: Result<(), E>,
) where
    F: FnMut(&StructuralHash) -> Result<Arc<HamtNode<K, V>>, E>,
    P: FnMut(&K, &V) -> Result<(), E>,
    requires
        visit_outcome::<K, V, F, E, P>(resolver, visitor, node, visited),
        shallow(loader::<K, V, E, F>(resolver), node, height),
        loadable(loader::<K, V, E, F>(resolver), store, node, height + 1),
    ensures
        ({
            let entries = entry_list(node, store, height + 1);
            match visited {
                Ok(_) => forall|i: int|
                    0 <= i < entries.len() ==> call_ensures(
                        visitor,
                        (&(#[trigger] entries[i]).0, &entries[i].1),
                        Ok::<(), E>(()),
                    ),
                Err(error) => exists|at: int| #[trigger]
                    passed_upto::<K, V, E, P>(visitor, entries, at) && (at < entries.len()
                        && call_ensures(
                        visitor,
                        (&entries[at].0, &entries[at].1),
                        Err::<(), E>(error),
                    ) || exists|hash: StructuralHash| #[trigger]
                        call_ensures(
                            resolver,
                            (&hash,),
                            Err::<Arc<HamtNode<K, V>>, E>(error),
                        )),
            }
        }),
{
    let entries = entry_list(node, store, height + 1);
    match visited {
        Ok(_) => {
            assert(all_answer::<K, V, (), E, P>(visitor, entries, entries.len() as int, ()));
            assert forall|i: int| 0 <= i < entries.len() implies call_ensures(
                visitor,
                (&(#[trigger] entries[i]).0, &entries[i].1),
                Ok::<(), E>(()),
            ) by {
                assert(answers::<K, V, (), E, P>(visitor, entries[i], Ok(())));
            }
        },
        Err(error) => {
            let (stop, at) = choose|stop: Stop, at: int| #[trigger]
                passes_to::<K, V, (), F, E, P>(
                    resolver,
                    visitor,
                    node,
                    store,
                    height + 1,
                    (),
                    stop,
                    at,
                ) && match stop {
                    Stop::Entry => answers::<K, V, (), E, P>(
                        visitor,
                        entries[at],
                        Err::<(), E>(error),
                    ),
                    Stop::Load(hash) => call_ensures(
                        resolver,
                        (&hash,),
                        Err::<Arc<HamtNode<K, V>>, E>(error),
                    ),
                    Stop::Depth => false,
                };
            assert forall|i: int| 0 <= i < at implies call_ensures(
                visitor,
                (&(#[trigger] entries[i]).0, &entries[i].1),
                Ok::<(), E>(()),
            ) by {
                assert(answers::<K, V, (), E, P>(visitor, entries[i], Ok(())));
            }
            assert(passed_upto::<K, V, E, P>(visitor, entries, at));
        },
    }
}

/// The entries before a place have passed.
pub open spec fn passed_upto<K, V, E, P>(visitor: P, entries: Seq<(K, V)>, at: int) -> bool where
    P: FnMut(&K, &V) -> Result<(), E>,
 {
    0 <= at <= entries.len() && forall|i: int|
        0 <= i < at ==> call_ensures(
            visitor,
            (&(#[trigger] entries[i]).0, &entries[i].1),
            Ok::<(), E>(()),
        )
}

/// A hash occurs in two lists together as often as in each of them, and in a list of one
/// hash once where it is that one.
pub proof fn occurrences_of_parts(
    a: Seq<StructuralHash>,
    b: Seq<StructuralHash>,
    one: StructuralHash,
    hash: Seq<u8>,
)
    ensures
        occurrences(a + b, hash, (a + b).len()) == occurrences(a, hash, a.len()) + occurrences(
            b,
            hash,
            b.len(),
        ),
        occurrences(seq![one], hash, 1) == if one@ == hash {
            1nat
        } else {
            0nat
        },
{
    reveal_with_fuel(occurrences, 2);
    occurrences_from(a, b, hash, b.len());
}

proof fn occurrences_before(
    a: Seq<StructuralHash>,
    b: Seq<StructuralHash>,
    hash: Seq<u8>,
    n: nat,
)
    requires
        n <= a.len(),
    ensures
        occurrences(a + b, hash, n) == occurrences(a, hash, n),
    decreases n,
{
    if n > 0 {
        occurrences_before(a, b, hash, (n - 1) as nat);
    }
}

proof fn occurrences_from(
    a: Seq<StructuralHash>,
    b: Seq<StructuralHash>,
    hash: Seq<u8>,
    n: nat,
)
    requires
        n <= b.len(),
    ensures
        occurrences(a + b, hash, a.len() + n) == occurrences(a, hash, a.len()) + occurrences(
            b,
            hash,
            n,
        ),
    decreases n,
{
    if n == 0 {
        occurrences_before(a, b, hash, a.len());
    } else {
        occurrences_from(a, b, hash, (n - 1) as nat);
        assert((a + b)[a.len() + n - 1] == b[n - 1]);
    }
}

/// An insertion whose route ends at a leaf of another key that is routed alike to the last
/// bit is refused, and names the two keys that it cannot tell apart.
pub proof fn collision_is_refused<K: HamtCodec, V: HamtCodec, F, E>(
    hashes: spec_fn(Seq<u8>, StructuralHash) -> bool,
    resolver: F,
    node: HamtNode<K, V>,
    store: spec_fn(StructuralHash) -> HamtNode<K, V>,
    structural_key: Seq<u8>,
    path: Seq<u8>,
    key: Seq<u8>,
    value: Seq<u8>,
    result: Result<(Arc<HamtNode<K, V>>, Option<V>), HamtMutateError<E>>,
) where F: FnMut(&StructuralHash) -> Result<Arc<HamtNode<K, V>>, E>
    requires
        insert_outcome::<K, V, F, E>(
            hashes,
            resolver,
            node,
            structural_key,
            path,
            0,
            key,
            value,
            result,
        ),
        readable(loader::<K, V, E, F>(resolver), store, node, 52),
        !(result matches Err(HamtMutateError::Resolve(_))),
        path_end(node, store, path, 0) matches PathEnd::Leaf(_, held, _) && held.encoding() != key
            && forall|hash: StructuralHash| #[trigger]
            hashes(held.encoding(), hash) ==> hash@ == path,
    ensures
        result matches Err(HamtMutateError::HashCollision { depth, bucket_size }) && bucket_size
            == 2 && 51 <= depth <= 52,
{
    assert((52 - 0nat) as nat == 52nat);
    if let PathEnd::Leaf(at, held, kept) = path_end(node, store, path, 0) {
        let hash = choose|hash: StructuralHash| #[trigger]
            hashes(held.encoding(), hash) && if same_path(hash@, path, at + 1) {
                result matches Err(HamtMutateError::HashCollision { depth, bucket_size }) && depth
                    == (if at == 51 {
                    52int
                } else {
                    51int
                }) && bucket_size == 2
            } else {
                displaced(result, None)
            };
        assert(hash@ == path);
        assert(same_path(hash@, path, at + 1));
    }
}

/// An audit has on the side of the reachable exactly the hashes of its universe that were
/// seen, and on the other side the rest.
pub proof fn audit_by_reach(
    audit: NodeReachabilityAudit,
    universe: Seq<StructuralHash>,
    seen: Set<Seq<u8>>,
    hash: Seq<u8>,
)
    requires
        partitions(audit, universe, seen),
    ensures
        hash_views(audit.reachable@).contains(hash) <==> listed(universe, hash) && seen.contains(
            hash,
        ),
        hash_views(audit.unreachable@).contains(hash) <==> listed(universe, hash)
            && !seen.contains(hash),
{
    distinct_members(universe, seen, true, hash, universe.len());
    distinct_members(universe, seen, false, hash, universe.len());
}

/// A keyed hash runs over bytes that determine the key and the data.
pub proof fn keyed_input_binds(key: Seq<u8>, data: Seq<u8>, other_key: Seq<u8>, other: Seq<u8>)
    requires
        key.len() <= u64::MAX,
        other_key.len() <= u64::MAX,
        keyed_input(key, data) == keyed_input(other_key, other),
    ensures
        key == other_key,
        data == other,
{
    byte_range_values();
    le_value_of_bytes(key.len(), 8);
    le_value_of_bytes(other_key.len(), 8);
    be_bytes_len(key.len(), 8);
    be_bytes_len(other_key.len(), 8);
    let (a, b) = (keyed_input(key, data), keyed_input(other_key, other));
    assert(a.subrange(0, 8) =~= le_bytes(key.len(), 8));
    assert(b.subrange(0, 8) =~= le_bytes(other_key.len(), 8));
    assert(key.len() == other_key.len());
    let n = key.len() as int;
    assert(key =~= a.subrange(8, 8 + n));
    assert(other_key =~= b.subrange(8, 8 + n));
    assert(data =~= a.skip(8 + n));
    assert(other =~= b.skip(8 + n));
}

/// By default a key is routed by the keyed hash of its routing bytes.
pub proof fn default_route_by_bytes<K: HamtKey>(structural_key: Seq<u8>, encoding: Seq<u8>)
    ensures
        default_route::<K>(structural_key)(encoding) == keyed_hash(
            structural_key,
            K::routing_of(encoding),
        ),
{
}

/// A routing hash that leads to a leaf is found with its value, one that leads nowhere is
/// absent, and one that leads to a child waits. Nothing else is told.
pub proof fn told_by_fate(answers: Answers, wanted: Seq<u8>, value: Seq<u8>, child: Seq<u8>)
    ensures
        ({
            let held = told(answers, wanted, Fate::Held(value));
            &&& held.found == answers.found.push((wanted, value))
            &&& held.absent == answers.absent
            &&& held.pending == answers.pending
        }),
        ({
            let missing = told(answers, wanted, Fate::Missing);
            &&& missing.found == answers.found
            &&& missing.absent == answers.absent.push(wanted)
            &&& missing.pending == answers.pending
        }),
        ({
            let below = told(answers, wanted, Fate::Below(child));
            &&& below.found == answers.found
            &&& below.absent == answers.absent
            &&& children_once(answers.pending) ==> waits(below.pending, child, wanted) && waiting(
                below.pending,
            ) == waiting(answers.pending) + 1
        }),
{
    if children_once(answers.pending) {
        queued_waits(answers.pending, child, wanted, child, wanted);
    }
}

} // verus!
