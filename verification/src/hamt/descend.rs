//! Level-synchronous lookup over persisted nodes.
//!
//! A caller that keeps nodes in a store reads one level of a trie at a time: it
//! hands over the bytes of the nodes of a level, each with the routing hashes
//! that it is asked for, and learns which keys are held, which are absent, and
//! which nodes of the next level to read for the rest.

use vstd::prelude::*;
use vstd::string::StringExecFns;
use super::bitmap::{disjoint_slots, has_slot, map_index, rank, rank_monotone, slot_set};
use super::codec::HamtCodec;
use super::hash::{keyed_hash, same_hash, StructuralHash};
use super::node::{
    bucket, bucket_index, bucket_range, canonical, canonical_slot, entry_slot, holds, node_at,
    node_domain, ref_hashes, routing_total, slot_in_node, HamtNode, HAMT_MAX_DEPTH,
};
use super::persist::{all_lazy, decode_error, leaves_read, node_bytes, PersistedInternalNode};
use super::read::clone_keeps;

verus! {

/// The routing hash of a key.
pub type KeyPathHash = StructuralHash;

/// A persisted node and what it is asked for: its hash, its bytes, its depth
/// and the routing hashes.
pub type RequestedNode<'a> = (StructuralHash, &'a [u8], usize, &'a [KeyPathHash]);

/// What one level tells about the routing hashes that were asked for.
#[derive(Debug, Clone, PartialEq, Eq)]
pub struct DescendResult<V> {
    /// Keys that are held, with their values.
    pub found: Vec<(KeyPathHash, V)>,
    /// Keys that are not in the trie.
    pub absent: Vec<KeyPathHash>,
    /// Nodes of the next level, each with the routing hashes to ask it for.
    pub pending: Vec<(StructuralHash, Vec<KeyPathHash>)>,
}

/// Why a level could not be descended.
#[derive(Debug, Clone, Copy, PartialEq, Eq)]
pub enum DescendError {
    /// The bytes of a node are malformed.
    Decode(&'static str),
    /// A node is not the one that was asked for, or not a node of a trie.
    CorruptNode(&'static str),
}

impl DescendError {
    /// The error as text.
    pub fn message(&self) -> (text: String)
        ensures
            text@ == match *self {
                DescendError::Decode(cause) => "hamt descend decode error: "@ + cause@,
                DescendError::CorruptNode(cause) => "hamt descend corrupt node: "@ + cause@,
            },
    {
        match self {
            DescendError::Decode(cause) => {
                let mut text: String = String::from_str("hamt descend decode error: ");
                text.append(cause);
                text
            },
            DescendError::CorruptNode(cause) => {
                let mut text: String = String::from_str("hamt descend corrupt node: ");
                text.append(cause);
                text
            },
        }
    }
}

/// The answers of a level by their contents.
#[verifier::ext_equal]
pub struct Answers {
    pub found: Seq<(Seq<u8>, Seq<u8>)>,
    pub absent: Seq<Seq<u8>>,
    pub pending: Seq<(Seq<u8>, Seq<Seq<u8>>)>,
}

/// Routing hashes by their contents.
pub open spec fn path_views(paths: Seq<KeyPathHash>) -> Seq<Seq<u8>> {
    Seq::new(paths.len(), |i: int| paths[i]@)
}

/// The pending nodes by their contents.
pub open spec fn pending_views(pending: Seq<(StructuralHash, Vec<KeyPathHash>)>) -> Seq<
    (Seq<u8>, Seq<Seq<u8>>),
> {
    Seq::new(pending.len(), |i: int| (pending[i].0@, path_views(pending[i].1@)))
}

impl<V: HamtCodec> DescendResult<V> {
    /// The answers by their contents.
    pub open spec fn answers(&self) -> Answers {
        Answers {
            found: Seq::new(
                self.found@.len(),
                |i: int| (self.found@[i].0@, self.found@[i].1.encoding()),
            ),
            absent: path_views(self.absent@),
            pending: pending_views(self.pending@),
        }
    }
}

/// Nothing has been answered.
pub open spec fn no_answers() -> Answers {
    Answers { found: Seq::empty(), absent: Seq::empty(), pending: Seq::empty() }
}

/// Where a node leads for a routing hash.
pub enum Fate {
    /// To the child with this hash.
    Below(Seq<u8>),
    /// To a leaf with this value.
    Held(Seq<u8>),
    /// Nowhere: the key is absent.
    Missing,
}

/// The pending nodes with one more routing hash for a child. A child is listed
/// once, where it was first asked for.
pub open spec fn queued(
    pending: Seq<(Seq<u8>, Seq<Seq<u8>>)>,
    child: Seq<u8>,
    wanted: Seq<u8>,
) -> Seq<(Seq<u8>, Seq<Seq<u8>>)>
    decreases pending.len(),
{
    if pending.len() == 0 {
        seq![(child, seq![wanted])]
    } else if pending.first().0 == child {
        seq![(child, pending.first().1.push(wanted))] + pending.drop_first()
    } else {
        seq![pending.first()] + queued(pending.drop_first(), child, wanted)
    }
}

/// The answers with one more.
pub open spec fn told(answers: Answers, wanted: Seq<u8>, fate: Fate) -> Answers {
    match fate {
        Fate::Below(child) => Answers {
            pending: queued(answers.pending, child, wanted),
            ..answers
        },
        Fate::Held(value) => Answers { found: answers.found.push((wanted, value)), ..answers },
        Fate::Missing => Answers { absent: answers.absent.push(wanted), ..answers },
    }
}

/// Where a node leads for a routing hash, or nothing where the leaf in the way
/// does not belong in its slot.
pub open spec fn leads<K: HamtCodec, V: HamtCodec, F>(
    key_hash: F,
    node: HamtNode<K, V>,
    depth: nat,
    wanted: Seq<u8>,
    fate: Option<Fate>,
) -> bool where F: FnMut(&K) -> StructuralHash {
    let slot = bucket(wanted, depth);
    if slot_set(node.nodemap, slot) {
        fate == Some(Fate::Below(ref_hashes(node.children@)[rank(node.nodemap, slot) as int]))
    } else if slot_set(node.datamap, slot) {
        let leaf = node.leaves@[rank(node.datamap, slot) as int];
        exists|path: StructuralHash| #[trigger]
            call_ensures(key_hash, (&leaf.0,), path) && fate == (if bucket(path@, depth) != slot {
                None
            } else if path@ == wanted {
                Some(Fate::Held(leaf.1.encoding()))
            } else {
                Some(Fate::Missing)
            })
    } else {
        fate == Some(Fate::Missing)
    }
}

/// The bytes hold this node, under this hash.
pub open spec fn stored_node<K: HamtCodec, V: HamtCodec>(
    structural_key: Seq<u8>,
    hash: Seq<u8>,
    bytes: Seq<u8>,
    node: HamtNode<K, V>,
) -> bool {
    &&& decode_error::<K, V>(bytes) is None
    &&& keyed_hash(structural_key, node_domain() + bytes) == hash
    &&& node_bytes(node) == bytes
    &&& leaves_read(bytes, node.leaves@)
    &&& node.shape()
    &&& all_lazy(node)
}

/// Asking a node for routing hashes, one after the other.
pub open spec fn asked<K: HamtCodec, V: HamtCodec, F>(
    key_hash: F,
    node: HamtNode<K, V>,
    depth: nat,
    wanted: Seq<Seq<u8>>,
    before: Answers,
    after: Answers,
) -> bool where F: FnMut(&K) -> StructuralHash
    decreases wanted.len(),
{
    if wanted.len() == 0 {
        after == before
    } else {
        exists|middle: Answers, fate: Fate|
            {
                &&& asked(key_hash, node, depth, wanted.drop_last(), before, middle)
                &&& leads(key_hash, node, depth, wanted.last(), Some(fate))
                &&& after == #[trigger] told(middle, wanted.last(), fate)
            }
    }
}

/// One node of a level answers.
pub open spec fn answers_of<K: HamtCodec, V: HamtCodec, F>(
    key_hash: F,
    structural_key: Seq<u8>,
    request: RequestedNode<'_>,
    node: HamtNode<K, V>,
    before: Answers,
    after: Answers,
) -> bool where F: FnMut(&K) -> StructuralHash {
    &&& stored_node(structural_key, request.0@, request.1@, node)
    &&& asked(key_hash, node, request.2 as nat, path_views(request.3@), before, after)
}

/// The first `n` nodes of a level answer.
pub open spec fn level_answers<K: HamtCodec, V: HamtCodec, F>(
    key_hash: F,
    structural_key: Seq<u8>,
    requests: Seq<RequestedNode<'_>>,
    n: nat,
    after: Answers,
) -> bool where F: FnMut(&K) -> StructuralHash
    decreases n,
{
    if n == 0 {
        after == no_answers()
    } else {
        exists|before: Answers, node: HamtNode<K, V>|
            {
                &&& level_answers::<K, V, F>(
                    key_hash,
                    structural_key,
                    requests,
                    (n - 1) as nat,
                    before,
                )
                &&& #[trigger] answers_of(
                    key_hash,
                    structural_key,
                    requests[n - 1],
                    node,
                    before,
                    after,
                )
            }
    }
}

/// Asking a node stops at a routing hash whose slot holds a leaf that does not
/// belong there.
pub open spec fn stops_at<K: HamtCodec, V: HamtCodec, F>(
    key_hash: F,
    node: HamtNode<K, V>,
    depth: nat,
    wanted: Seq<Seq<u8>>,
    k: int,
    before: Answers,
    middle: Answers,
) -> bool where F: FnMut(&K) -> StructuralHash {
    &&& 0 <= k < wanted.len()
    &&& asked(key_hash, node, depth, wanted.take(k), before, middle)
    &&& leads(key_hash, node, depth, wanted[k], None)
}

/// A node that does not answer: its bytes are malformed or not those of the
/// hash, or the leaf in the way of a routing hash does not belong in its slot.
pub open spec fn answer_fails<K: HamtCodec, V: HamtCodec, F>(
    key_hash: F,
    structural_key: Seq<u8>,
    request: RequestedNode<'_>,
    before: Answers,
    error: DescendError,
) -> bool where F: FnMut(&K) -> StructuralHash {
    match decode_error::<K, V>(request.1@) {
        Some(problem) => error matches DescendError::Decode(cause) && cause@ == problem,
        None => if keyed_hash(structural_key, node_domain() + request.1@) != request.0@ {
            error matches DescendError::CorruptNode(cause) && cause@
                == "decoded node contents do not match requested node hash"@
        } else {
            &&& error matches DescendError::CorruptNode(cause)
            &&& cause@ == "leaf routed to wrong slot"@
            &&& exists|node: HamtNode<K, V>, k: int, middle: Answers|
                stored_node(structural_key, request.0@, request.1@, node) && #[trigger] stops_at(
                    key_hash,
                    node,
                    request.2 as nat,
                    path_views(request.3@),
                    k,
                    before,
                    middle,
                )
        },
    }
}

/// The nodes of a level are not all of one depth.
pub open spec fn mixed_depths(requests: Seq<RequestedNode<'_>>) -> bool {
    exists|i: int| 0 <= i < requests.len() && (#[trigger] requests[i]).2 != requests[0].2
}

/// The nodes of a level are deeper than routing hashes reach.
pub open spec fn beyond_reach(requests: Seq<RequestedNode<'_>>) -> bool {
    requests.len() > 0 && requests[0].2 >= HAMT_MAX_DEPTH
}

/// What descending a level comes to.
pub open spec fn descended<K: HamtCodec, V: HamtCodec, F>(
    key_hash: F,
    structural_key: Seq<u8>,
    requests: Seq<RequestedNode<'_>>,
    result: Result<DescendResult<V>, DescendError>,
) -> bool where F: FnMut(&K) -> StructuralHash {
    if mixed_depths(requests) {
        result matches Err(DescendError::CorruptNode(cause)) && cause@
            == "mixed-depth entries in a single descend_level call"@
    } else if beyond_reach(requests) {
        result matches Err(DescendError::CorruptNode(cause)) && cause@
            == "HAMT depth exceeds routing limit"@
    } else {
        match result {
            Ok(level) => level_answers::<K, V, F>(
                key_hash,
                structural_key,
                requests,
                requests.len(),
                level.answers(),
            ),
            Err(error) => exists|n: int, before: Answers|
                {
                    &&& 0 <= n < requests.len()
                    &&& level_answers::<K, V, F>(
                        key_hash,
                        structural_key,
                        requests,
                        n as nat,
                        before,
                    )
                    &&& #[trigger] answer_fails::<K, V, F>(
                        key_hash,
                        structural_key,
                        requests[n],
                        before,
                        error,
                    )
                },
        }
    }
}

/// Reads the node that was asked for out of its bytes.
fn load_requested<K: HamtCodec, V: HamtCodec>(
    structural_key: &[u8],
    hash: StructuralHash,
    bytes: &[u8],
) -> (result: Result<HamtNode<K, V>, DescendError>)
    ensures
        match result {
            Ok(node) => stored_node(structural_key@, hash@, bytes@, node),
            Err(DescendError::Decode(cause)) => decode_error::<K, V>(bytes@) == Some(cause@),
            Err(DescendError::CorruptNode(cause)) => {
                &&& decode_error::<K, V>(bytes@) is None
                &&& keyed_hash(structural_key@, node_domain() + bytes@) != hash@
                &&& cause@ == "decoded node contents do not match requested node hash"@
            },
        },
{
    match PersistedInternalNode::<K, V>::decode_v1_unverified(bytes) {
        Ok(_) => {},
        Err(cause) => return Err(DescendError::Decode(cause)),
    }
    match PersistedInternalNode::<K, V>::decode_v1_verified(bytes, structural_key, hash) {
        Ok(node) => Ok(node),
        Err(_) => Err(
            DescendError::CorruptNode("decoded node contents do not match requested node hash"),
        ),
    }
}

proof fn queued_last(pending: Seq<(Seq<u8>, Seq<Seq<u8>>)>, child: Seq<u8>, wanted: Seq<u8>)
    requires
        forall|i: int| 0 <= i < pending.len() ==> (#[trigger] pending[i]).0 != child,
    ensures
        queued(pending, child, wanted) == pending.push((child, seq![wanted])),
    decreases pending.len(),
{
    if pending.len() > 0 {
        let tail = pending.drop_first();
        assert forall|i: int| 0 <= i < tail.len() implies (#[trigger] tail[i]).0 != child by {
            assert(tail[i] == pending[i + 1]);
        }
        queued_last(tail, child, wanted);
        assert(pending[0].0 != child);
        assert(seq![pending.first()] + tail.push((child, seq![wanted])) =~= pending.push(
            (child, seq![wanted]),
        ));
    } else {
        assert(seq![(child, seq![wanted])] =~= pending.push((child, seq![wanted])));
    }
}

proof fn queued_at(
    pending: Seq<(Seq<u8>, Seq<Seq<u8>>)>,
    child: Seq<u8>,
    wanted: Seq<u8>,
    at: int,
)
    requires
        0 <= at < pending.len(),
        pending[at].0 == child,
        forall|i: int| 0 <= i < at ==> (#[trigger] pending[i]).0 != child,
    ensures
        queued(pending, child, wanted) == pending.update(at, (child, pending[at].1.push(wanted))),
    decreases pending.len(),
{
    let tail = pending.drop_first();
    let goal = pending.update(at, (child, pending[at].1.push(wanted)));
    if at > 0 {
        assert forall|i: int| 0 <= i < at - 1 implies (#[trigger] tail[i]).0 != child by {
            assert(tail[i] == pending[i + 1]);
        }
        assert(pending[0].0 != child);
        queued_at(tail, child, wanted, at - 1);
        assert(seq![pending.first()] + tail.update(at - 1, (child, tail[at - 1].1.push(wanted)))
            =~= goal);
    } else {
        assert(seq![(child, pending.first().1.push(wanted))] + tail =~= goal);
    }
}

/// Adds a routing hash for a child to the pending nodes.
fn queue(
    pending: &mut Vec<(StructuralHash, Vec<KeyPathHash>)>,
    child: StructuralHash,
    wanted: KeyPathHash,
)
    ensures
        pending_views(final(pending)@) == queued(pending_views(old(pending)@), child@, wanted@),
{
    let ghost before = pending@;
    let ghost views = pending_views(pending@);
    let mut at: usize = 0;
    while at < pending.len() && !same_hash(&pending[at].0, &child)
        invariant
            pending@ == before,
            views == pending_views(before),
            at <= pending@.len(),
            forall|i: int| 0 <= i < at ==> (#[trigger] views[i]).0 != child@,
        decreases pending.len() - at,
    {
        proof {
            assert(views[at as int].0 != child@);
        }
        at = at + 1;
    }
    if at < pending.len() {
        let entry: &mut (StructuralHash, Vec<KeyPathHash>) = &mut pending[at];
        entry.1.push(wanted);
        proof {
            let i = at as int;
            assert(views[i].0 == child@);
            queued_at(views, child@, wanted@, i);
            assert(path_views(pending@[i].1@) =~= views[i].1.push(wanted@));
            assert(pending_views(pending@) =~= views.update(
                i,
                (child@, views[i].1.push(wanted@)),
            ));
        }
    } else {
        let mut paths: Vec<KeyPathHash> = Vec::new();
        paths.push(wanted);
        pending.push((child, paths));
        proof {
            queued_last(views, child@, wanted@);
            assert(path_views(paths@) =~= seq![wanted@]);
            assert(pending_views(pending@) =~= views.push((child@, seq![wanted@])));
        }
    }
}

/// What is known of a routing hash after looking at a node.
enum Step<V> {
    Below(StructuralHash),
    Held(V),
    Missing,
    Misrouted,
}

/// The fate that a step stands for.
spec fn step_fate<V: HamtCodec>(step: Step<V>) -> Option<Fate> {
    match step {
        Step::Below(child) => Some(Fate::Below(child@)),
        Step::Held(value) => Some(Fate::Held(value.encoding())),
        Step::Missing => Some(Fate::Missing),
        Step::Misrouted => None,
    }
}

/// Looks at a node for one routing hash.
fn look<K, V, F>(
    key_hash: &mut F,
    node: &HamtNode<K, V>,
    depth: usize,
    wanted: &KeyPathHash,
) -> (step: Step<V>) where
    K: HamtCodec,
    V: HamtCodec + Clone,
    F: FnMut(&K) -> StructuralHash,

    requires
        depth < HAMT_MAX_DEPTH,
        node.shape(),
        routing_total::<K, F>(*old(key_hash)),
        clone_keeps::<V>(),
    ensures
        *final(key_hash) == *old(key_hash),
        leads(*old(key_hash), *node, depth as nat, wanted@, step_fate(step)),
{
    let slot: usize = bucket_index(wanted, depth);
    proof {
        bucket_range(wanted@, depth as nat);
        rank_monotone(node.nodemap, slot as int, 32);
        rank_monotone(node.datamap, slot as int, 32);
    }
    if has_slot(node.nodemap, slot) {
        let at: usize = map_index(node.nodemap, slot);
        return Step::Below(node.children[at].structural_hash());
    }
    if !has_slot(node.datamap, slot) {
        return Step::Missing;
    }
    let at: usize = map_index(node.datamap, slot);
    let path: StructuralHash = key_hash(&node.leaves[at].0);
    if bucket_index(&path, depth) != slot {
        return Step::Misrouted;
    }
    if same_hash(&path, wanted) {
        let value: V = node.leaves[at].1.clone();
        proof {
            assert(cloned(node.leaves@[at as int].1, value));
        }
        Step::Held(value)
    } else {
        Step::Missing
    }
}

/// Asks a node for routing hashes.
fn ask<K, V, F>(
    key_hash: &mut F,
    node: &HamtNode<K, V>,
    depth: usize,
    wanted: &[KeyPathHash],
    level: &mut DescendResult<V>,
) -> (result: Result<(), DescendError>) where
    K: HamtCodec,
    V: HamtCodec + Clone,
    F: FnMut(&K) -> StructuralHash,

    requires
        depth < HAMT_MAX_DEPTH,
        node.shape(),
        routing_total::<K, F>(*old(key_hash)),
        clone_keeps::<V>(),
    ensures
        *final(key_hash) == *old(key_hash),
        match result {
            Ok(_) => asked(
                *old(key_hash),
                *node,
                depth as nat,
                path_views(wanted@),
                old(level).answers(),
                final(level).answers(),
            ),
            Err(error) => {
                &&& error matches DescendError::CorruptNode(cause)
                &&& cause@ == "leaf routed to wrong slot"@
                &&& exists|k: int, middle: Answers| #[trigger]
                    stops_at(
                        *old(key_hash),
                        *node,
                        depth as nat,
                        path_views(wanted@),
                        k,
                        old(level).answers(),
                        middle,
                    )
            },
        },
{
    let ghost hasher = *key_hash;
    let ghost before = level.answers();
    let ghost views = path_views(wanted@);
    let mut k: usize = 0;
    proof {
        assert(views.take(0) =~= Seq::<Seq<u8>>::empty());
    }
    while k < wanted.len()
        invariant
            depth < HAMT_MAX_DEPTH,
            node.shape(),
            *key_hash == hasher,
            hasher == *old(key_hash),
            before == old(level).answers(),
            routing_total::<K, F>(hasher),
            clone_keeps::<V>(),
            k <= wanted@.len(),
            views == path_views(wanted@),
            asked(hasher, *node, depth as nat, views.take(k as int), before, level.answers()),
        decreases wanted.len() - k,
    {
        let ghost middle = level.answers();
        let step: Step<V> = look(key_hash, node, depth, &wanted[k]);
        let ghost fate = step_fate(step);
        match step {
            Step::Below(child) => queue(&mut level.pending, child, wanted[k]),
            Step::Held(value) => {
                level.found.push((wanted[k], value));
                proof {
                    assert(level.answers().found =~= middle.found.push(
                        (wanted@[k as int]@, value.encoding()),
                    ));
                }
            },
            Step::Missing => {
                level.absent.push(wanted[k]);
                proof {
                    assert(level.answers().absent =~= middle.absent.push(wanted@[k as int]@));
                }
            },
            Step::Misrouted => {
                proof {
                    assert(stops_at(
                        hasher,
                        *node,
                        depth as nat,
                        views,
                        k as int,
                        before,
                        middle,
                    ));
                }
                return Err(DescendError::CorruptNode("leaf routed to wrong slot"));
            },
        }
        proof {
            let next = views.take(k + 1);
            assert(next.drop_last() =~= views.take(k as int));
            assert(next.last() == wanted@[k as int]@);
            assert(level.answers() =~= told(middle, next.last(), fate->0));
            assert(leads(hasher, *node, depth as nat, next.last(), Some(fate->0)));
            assert(asked(hasher, *node, depth as nat, next, before, level.answers()));
        }
        k = k + 1;
    }
    proof {
        assert(views.take(k as int) =~= views);
    }
    Ok(())
}

/// One more node of a level answers.
proof fn level_extends<K: HamtCodec, V: HamtCodec, F>(
    key_hash: F,
    structural_key: Seq<u8>,
    requests: Seq<RequestedNode<'_>>,
    n: nat,
    node: HamtNode<K, V>,
    before: Answers,
    after: Answers,
) where F: FnMut(&K) -> StructuralHash
    requires
        level_answers::<K, V, F>(key_hash, structural_key, requests, n, before),
        answers_of(key_hash, structural_key, requests[n as int], node, before, after),
    ensures
        level_answers::<K, V, F>(key_hash, structural_key, requests, n + 1, after),
{
    let m = n + 1;
    assert(level_answers::<K, V, F>(
        key_hash,
        structural_key,
        requests,
        (m - 1) as nat,
        before,
    ));
    assert(answers_of(key_hash, structural_key, requests[m - 1], node, before, after));
}

/// Descends one level of a persisted trie.
///
/// Every node must be of the same depth. For each routing hash that a node is
/// asked for, the result tells that the key is held, that it is absent, or
/// which node of the next level to ask.
///
/// # Errors
/// Returns [`DescendError::Decode`] for malformed bytes, and
/// [`DescendError::CorruptNode`] for nodes of different depths, a depth beyond
/// the reach of routing hashes, bytes that are not those of the hash, and a leaf
/// that does not belong in its slot.
pub fn descend_level<K, V, F>(
    structural_key: &[u8],
    nodes_and_keys: &[RequestedNode<'_>],
    mut key_hash_fn: F,
) -> (result: Result<DescendResult<V>, DescendError>) where
    K: HamtCodec,
    V: HamtCodec + Clone,
    F: FnMut(&K) -> StructuralHash,

    requires
        routing_total::<K, F>(key_hash_fn),
        clone_keeps::<V>(),
    ensures
        descended::<K, V, F>(key_hash_fn, structural_key@, nodes_and_keys@, result),
{
    let ghost hasher = key_hash_fn;
    let ghost requests = nodes_and_keys@;
    let mut level: DescendResult<V> = DescendResult {
        found: Vec::new(),
        absent: Vec::new(),
        pending: Vec::new(),
    };
    proof {
        assert(level.answers() =~= no_answers());
    }
    if nodes_and_keys.len() == 0 {
        return Ok(level);
    }
    let depth: usize = nodes_and_keys[0].2;
    let mut index: usize = 0;
    while index < nodes_and_keys.len()
        invariant
            requests == nodes_and_keys@,
            index <= requests.len(),
            requests.len() > 0,
            depth == requests[0].2,
            forall|i: int| 0 <= i < index ==> (#[trigger] requests[i]).2 == depth,
        ensures
            forall|i: int| 0 <= i < requests.len() ==> (#[trigger] requests[i]).2 == depth,
        decreases nodes_and_keys.len() - index,
    {
        if nodes_and_keys[index].2 != depth {
            proof {
                assert(requests[index as int].2 != requests[0].2);
            }
            return Err(
                DescendError::CorruptNode("mixed-depth entries in a single descend_level call"),
            );
        }
        index = index + 1;
    }
    if depth >= HAMT_MAX_DEPTH {
        return Err(DescendError::CorruptNode("HAMT depth exceeds routing limit"));
    }
    let mut place: usize = 0;
    #[verifier::loop_isolation(false)]
    while place < nodes_and_keys.len()
        invariant
            requests == nodes_and_keys@,
            place <= requests.len(),
            depth < HAMT_MAX_DEPTH,
            key_hash_fn == hasher,
            routing_total::<K, F>(hasher),
            clone_keeps::<V>(),
            forall|i: int| 0 <= i < requests.len() ==> (#[trigger] requests[i]).2 == depth,
            !mixed_depths(requests),
            !beyond_reach(requests),
            level_answers::<K, V, F>(
                hasher,
                structural_key@,
                requests,
                place as nat,
                level.answers(),
            ),
        decreases nodes_and_keys.len() - place,
    {
        let request: RequestedNode<'_> = nodes_and_keys[place];
        let ghost before = level.answers();
        proof {
            assert(request == requests[place as int]);
            assert(request.2 == depth);
        }
        let node: HamtNode<K, V> = match load_requested(structural_key, request.0, request.1) {
            Ok(node) => node,
            Err(error) => {
                proof {
                    assert(answer_fails::<K, V, F>(
                        hasher,
                        structural_key@,
                        requests[place as int],
                        before,
                        error,
                    ));
                }
                return Err(error);
            },
        };
        match ask(&mut key_hash_fn, &node, depth, request.3, &mut level) {
            Ok(_) => {},
            Err(error) => {
                proof {
                    assert(answer_fails::<K, V, F>(
                        hasher,
                        structural_key@,
                        requests[place as int],
                        before,
                        error,
                    ));
                }
                return Err(error);
            },
        }
        proof {
            level_extends::<K, V, F>(
                hasher,
                structural_key@,
                requests,
                place as nat,
                node,
                before,
                level.answers(),
            );
        }
        place = place + 1;
    }
    Ok(level)
}

/// A routing function returns only what the route says.
pub open spec fn follows_route<K: HamtCodec, F>(
    key_hash: F,
    route: spec_fn(Seq<u8>) -> Seq<u8>,
) -> bool where F: FnMut(&K) -> StructuralHash {
    forall|key: K, path: StructuralHash| #[trigger]
        call_ensures(key_hash, (&key,), path) ==> path@ == route(key.encoding())
}

/// The child of a node that a routing hash leads to.
pub open spec fn child_on<K: HamtCodec, V: HamtCodec>(
    node: HamtNode<K, V>,
    store: spec_fn(StructuralHash) -> HamtNode<K, V>,
    path: Seq<u8>,
    depth: nat,
) -> HamtNode<K, V> {
    node_at(node.child(bucket(path, depth)), store)
}

/// What a node of a canonical trie answers agrees with what the trie holds: it
/// never refuses, a value is told only of an entry with that routing hash, an
/// absent key is not held, and a child holds the key where the node does.
pub proof fn descent_agrees<K: HamtCodec, V: HamtCodec, F>(
    key_hash: F,
    node: HamtNode<K, V>,
    store: spec_fn(StructuralHash) -> HamtNode<K, V>,
    route: spec_fn(Seq<u8>) -> Seq<u8>,
    structural_key: Seq<u8>,
    key: Seq<u8>,
    depth: nat,
    fate: Option<Fate>,
) where F: FnMut(&K) -> StructuralHash
    requires
        canonical(node, store, route, structural_key, depth),
        follows_route::<K, F>(key_hash, route),
        leads(key_hash, node, depth, route(key), fate),
    ensures
        fate is Some,
        fate matches Some(Fate::Held(value)) ==> exists|held: Seq<u8>| #[trigger]
            holds(node, store, held, value, depth) && route(held) == route(key),
        fate matches Some(Fate::Missing) ==> forall|value: Seq<u8>|
            !#[trigger] holds(node, store, key, value, depth),
        fate matches Some(Fate::Below(hash)) ==> {
            let child = child_on(node, store, route(key), depth);
            &&& hash == child.structural_hash@
            &&& canonical(child, store, route, structural_key, depth + 1)
            &&& forall|value: Seq<u8>| #[trigger]
                holds(node, store, key, value, depth) <==> holds(
                    child,
                    store,
                    key,
                    value,
                    depth + 1,
                )
        },
{
    let path = route(key);
    let slot = bucket(path, depth);
    bucket_range(path, depth);
    canonical_slot(node, store, route, structural_key, depth, slot);
    rank_monotone(node.nodemap, slot, 32);
    rank_monotone(node.datamap, slot, 32);
    if slot_set(node.nodemap, slot) {
        let child = child_on(node, store, path, depth);
        disjoint_slots(node.datamap, node.nodemap, slot);
        assert forall|value: Seq<u8>| #[trigger]
            holds(node, store, key, value, depth) <==> holds(
                child,
                store,
                key,
                value,
                depth + 1,
            ) by {
            if holds(node, store, key, value, depth) {
                entry_slot(node, store, route, structural_key, key, value, depth);
            }
            if holds(child, store, key, value, depth + 1) {
                slot_in_node(node, store, key, value, depth, slot);
            }
        }
    } else {
        if slot_set(node.datamap, slot) {
            let leaf = node.leaf(slot);
            slot_in_node(
                node,
                store,
                leaf.0.encoding(),
                leaf.1.encoding(),
                depth,
                slot,
            );
            if let Some(Fate::Held(value)) = fate {
                let hash = choose|hash: StructuralHash| #[trigger]
                    call_ensures(key_hash, (&leaf.0,), hash) && hash@ == path;
                assert(route(leaf.0.encoding()) == path);
                assert(holds(node, store, leaf.0.encoding(), value, depth));
            }
        }
        assert forall|value: Seq<u8>| fate == Some(Fate::Missing) implies !#[trigger] holds(
            node,
            store,
            key,
            value,
            depth,
        ) by {
            if holds(node, store, key, value, depth) {
                entry_slot(node, store, route, structural_key, key, value, depth);
            }
        }
    }
}

} // verus!
