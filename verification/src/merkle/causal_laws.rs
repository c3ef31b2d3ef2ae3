//! What the digests of a causal set commit to, and what compressing a path collapses.

use vstd::prelude::*;
use vstd::utf8::{encode_utf8, is_ascii_chars_encode_utf8, is_ascii_chars_nat_bound};
use crate::bytes::{be_bytes, be_bytes_len, be_value_of_bytes, byte_range_values};
use crate::primitives::sha3_256_bytes;
use super::causal::{absence_proved, climb, climbs_to, step_contents, CausalProofStep};
use super::compress::{
    compressed_path, empty_step, flushed, packed_steps, packing, sibling_depth,
    CompressedCausalStep, Packed,
};
use super::laws::distinct_digests;
use super::trie::{
    agreeing, causal_leaf_digest, causal_node_digest, empty_digest, key_bit, side, side_agrees,
    subtree, subtree_count,
};

verus! {

proof fn causal_marks_differ()
    ensures
        encode_utf8("msc4511:causal-leaf:v1"@).len() == 22,
        encode_utf8("msc4511:causal-node:v1"@).len() == 22,
        encode_utf8("msc4511:causal-empty-leaf:v1"@).len() == 28,
        encode_utf8("msc4511:causal-leaf:v1"@)[15] != encode_utf8("msc4511:causal-node:v1"@)[15],
        encode_utf8("msc4511:causal-empty-leaf:v1"@)[15] != encode_utf8(
            "msc4511:causal-node:v1"@,
        )[15],
        encode_utf8("msc4511:causal-empty-leaf:v1"@)[15] != encode_utf8(
            "msc4511:causal-leaf:v1"@,
        )[15],
{
    reveal_strlit("msc4511:causal-leaf:v1");
    reveal_strlit("msc4511:causal-node:v1");
    reveal_strlit("msc4511:causal-empty-leaf:v1");
    is_ascii_chars_encode_utf8("msc4511:causal-leaf:v1"@);
    is_ascii_chars_encode_utf8("msc4511:causal-node:v1"@);
    is_ascii_chars_encode_utf8("msc4511:causal-empty-leaf:v1"@);
    is_ascii_chars_nat_bound("msc4511:causal-leaf:v1"@);
    is_ascii_chars_nat_bound("msc4511:causal-node:v1"@);
    is_ascii_chars_nat_bound("msc4511:causal-empty-leaf:v1"@);
}

/// A leaf of a causal set commits to its key.
pub proof fn causal_leaf_binds(key: Seq<u8>, other: Seq<u8>)
    requires
        causal_leaf_digest(key) == causal_leaf_digest(other),
        distinct_digests(
            encode_utf8("msc4511:causal-leaf:v1"@) + key,
            encode_utf8("msc4511:causal-leaf:v1"@) + other,
        ),
    ensures
        key == other,
{
    causal_marks_differ();
    let mark = encode_utf8("msc4511:causal-leaf:v1"@);
    assert(key =~= (mark + key).skip(22));
    assert(other =~= (mark + other).skip(22));
}

/// What an inner node of a causal set is hashed from.
pub open spec fn node_image(
    depth: nat,
    left: (Seq<u8>, nat),
    right: (Seq<u8>, nat),
) -> Seq<u8> {
    encode_utf8("msc4511:causal-node:v1"@) + be_bytes(depth, 2) + left.0 + be_bytes(left.1, 8)
        + right.0 + be_bytes(right.1, 8)
}

/// An inner node of a causal set commits to its depth and to the digests and the counts
/// of its children, each on its side.
pub proof fn causal_node_binds(
    depth: nat,
    left: (Seq<u8>, nat),
    right: (Seq<u8>, nat),
    other_depth: nat,
    other_left: (Seq<u8>, nat),
    other_right: (Seq<u8>, nat),
)
    requires
        depth <= 256,
        other_depth <= 256,
        left.0.len() == 32,
        right.0.len() == 32,
        other_left.0.len() == 32,
        other_right.0.len() == 32,
        left.1 <= u64::MAX,
        right.1 <= u64::MAX,
        other_left.1 <= u64::MAX,
        other_right.1 <= u64::MAX,
        causal_node_digest(depth, left, right) == causal_node_digest(
            other_depth,
            other_left,
            other_right,
        ),
        distinct_digests(
            node_image(depth, left, right),
            node_image(other_depth, other_left, other_right),
        ),
    ensures
        depth == other_depth,
        left == other_left,
        right == other_right,
{
    causal_marks_differ();
    let a = node_image(depth, left, right);
    let b = node_image(other_depth, other_left, other_right);
    node_parts(depth, left, right);
    node_parts(other_depth, other_left, other_right);
    assert(a == b);
}

proof fn node_parts(depth: nat, left: (Seq<u8>, nat), right: (Seq<u8>, nat))
    requires
        depth <= 256,
        left.0.len() == 32,
        right.0.len() == 32,
        left.1 <= u64::MAX,
        right.1 <= u64::MAX,
    ensures
        ({
            let a = node_image(depth, left, right);
            &&& crate::bytes::be_value(a.subrange(22, 24)) == depth
            &&& a.subrange(24, 56) == left.0
            &&& crate::bytes::be_value(a.subrange(56, 64)) == left.1
            &&& a.subrange(64, 96) == right.0
            &&& crate::bytes::be_value(a.subrange(96, 104)) == right.1
        }),
{
    causal_marks_differ();
    be_bytes_len(depth, 2);
    be_bytes_len(left.1, 8);
    be_bytes_len(right.1, 8);
    byte_range_values();
    be_value_of_bytes(depth, 2);
    be_value_of_bytes(left.1, 8);
    be_value_of_bytes(right.1, 8);
    let a = node_image(depth, left, right);
    assert(a.subrange(22, 24) =~= be_bytes(depth, 2));
    assert(a.subrange(24, 56) =~= left.0);
    assert(a.subrange(56, 64) =~= be_bytes(left.1, 8));
    assert(a.subrange(64, 96) =~= right.0);
    assert(a.subrange(96, 104) =~= be_bytes(right.1, 8));
}

/// A leaf, an inner node and an empty leaf of a causal set are never taken for each
/// other.
pub proof fn causal_kinds_differ(
    key: Seq<u8>,
    depth: nat,
    left: (Seq<u8>, nat),
    right: (Seq<u8>, nat),
)
    requires
        distinct_digests(
            encode_utf8("msc4511:causal-leaf:v1"@) + key,
            node_image(depth, left, right),
        ),
        distinct_digests(
            encode_utf8("msc4511:causal-empty-leaf:v1"@),
            node_image(depth, left, right),
        ),
        distinct_digests(
            encode_utf8("msc4511:causal-empty-leaf:v1"@),
            encode_utf8("msc4511:causal-leaf:v1"@) + key,
        ),
    ensures
        causal_leaf_digest(key) != causal_node_digest(depth, left, right),
        empty_digest(256) != causal_node_digest(depth, left, right),
        empty_digest(256) != causal_leaf_digest(key),
{
    causal_marks_differ();
    let leaf = encode_utf8("msc4511:causal-leaf:v1"@) + key;
    let node = node_image(depth, left, right);
    assert(leaf[15] == encode_utf8("msc4511:causal-leaf:v1"@)[15]);
    assert(node[15] == encode_utf8("msc4511:causal-node:v1"@)[15]);
}

/// The keys of a subtree go to the left where their bit at its depth is clear and to the
/// right where it is set: the bits of the first byte come first, the greatest first.
pub proof fn sides_by_bits(keys: Set<Seq<u8>>, i: int, j: int, key: Seq<u8>)
    requires
        0 <= i < 32,
        0 <= j < 8,
        keys.contains(key),
    ensures
        ({
            let depth = (8 * i + j) as nat;
            let set = (key[i] >> ((7 - j) as u8)) & 1u8 == 1u8;
            &&& side(keys, depth, true).contains(key) <==> set
            &&& side(keys, depth, false).contains(key) <==> !set
        }),
{
    let depth = 8 * i + j;
    assert(depth / 8 == i && depth % 8 == j);
    assert(key_bit(key, depth) <==> (key[i] >> ((7 - j) as u8)) & 1u8 == 1u8);
}

/// A subtree of no keys is empty, one at the last depth is a leaf, and any other is a node
/// over its sides.
pub proof fn subtree_by_sides(keys: Set<Seq<u8>>, depth: nat, key: Seq<u8>)
    requires
        depth <= 256,
    ensures
        subtree(Set::empty(), depth) == (empty_digest(depth), 0nat),
        subtree(set![key], 256) == (causal_leaf_digest(key), 1nat),
        depth < 256 ==> empty_digest(depth) == causal_node_digest(
            depth,
            (empty_digest(depth + 1), 0),
            (empty_digest(depth + 1), 0),
        ),
        depth < 256 ==> {
            let left = subtree(side(keys, depth, false), depth + 1);
            let right = subtree(side(keys, depth, true), depth + 1);
            subtree(keys, depth) == (causal_node_digest(depth, left, right), left.1 + right.1)
        },
{
    assert(set![key].contains(key));
    assert(set![key] != Set::<Seq<u8>>::empty());
    let chosen = set![key].choose();
    assert(set![key].contains(chosen));
    assert(chosen == key);
    if depth < 256 && keys == Set::<Seq<u8>>::empty() {
        assert(side(keys, depth, false) =~= Set::empty());
        assert(side(keys, depth, true) =~= Set::empty());
        reveal_with_fuel(subtree, 2);
    }
}

/// The step is one of the path that does not stand for an empty subtree.
pub open spec fn stays_plain(
    terminal_depth: nat,
    path: Seq<(Seq<u8>, nat)>,
    hash: Seq<u8>,
    count: nat,
) -> bool {
    exists|i: int|
        {
            &&& 0 <= i < path.len()
            &&& #[trigger] path[i] == (hash, count)
            &&& !(count == 0 && terminal_depth - 256 <= i <= terminal_depth && hash
                == empty_digest((terminal_depth - i) as nat))
        }
}

proof fn packing_collapses(terminal_depth: nat, path: Seq<(Seq<u8>, nat)>, n: nat)
    requires
        n <= path.len(),
        path.len() <= terminal_depth + 1,
    ensures
        ({
            let (steps, run) = packing(terminal_depth, path, n);
            &&& forall|j: int|
                0 <= j && j + 1 < steps.len() ==> !((#[trigger] steps[j]) is Run && steps[j
                    + 1] is Run)
            &&& run is Some && steps.len() > 0 ==> steps.last() is Step
            &&& forall|j: int|
                0 <= j < steps.len() ==> (#[trigger] steps[j] matches Packed::Step(hash, count)
                    ==> stays_plain(terminal_depth, path, hash, count))
        }),
    decreases n,
{
    if n > 0 {
        packing_collapses(terminal_depth, path, (n - 1) as nat);
        let before = packing(terminal_depth, path, (n - 1) as nat);
        let step = path[n - 1];
        let depth = sibling_depth(terminal_depth, n - 1);
        if !empty_step(step, depth) {
            let closed = flushed(before);
            let steps = closed.push(Packed::Step(step.0, step.1));
            assert(path[n - 1] == (step.0, step.1));
            assert(stays_plain(terminal_depth, path, step.0, step.1));
            assert forall|j: int| 0 <= j && j + 1 < steps.len() implies !((
            #[trigger] steps[j]) is Run && steps[j + 1] is Run) by {
                if j + 1 < before.0.len() {
                    assert(!(before.0[j] is Run && before.0[j + 1] is Run));
                }
            }
            assert forall|j: int| 0 <= j < steps.len() implies (
            #[trigger] steps[j] matches Packed::Step(hash, count) ==> stays_plain(
                terminal_depth,
                path,
                hash,
                count,
            )) by {
                if j < before.0.len() {
                    assert(steps[j] == before.0[j]);
                }
            }
        }
    }
}

/// Compressing collapses all that it can: no step that stands for an empty subtree stays,
/// and no two runs stand next to each other.
pub proof fn compressing_collapses(terminal_depth: nat, path: Seq<(Seq<u8>, nat)>, j: int)
    requires
        path.len() <= terminal_depth + 1,
        0 <= j < compressed_path(terminal_depth, path).len(),
    ensures
        ({
            let packed = compressed_path(terminal_depth, path);
            &&& j + 1 < packed.len() ==> !(packed[j] is Run && packed[j + 1] is Run)
            &&& packed[j] matches Packed::Step(hash, count) ==> stays_plain(
                terminal_depth,
                path,
                hash,
                count,
            )
        }),
{
    packing_collapses(terminal_depth, path, path.len());
    let (steps, run) = packing(terminal_depth, path, path.len());
    let packed = compressed_path(terminal_depth, path);
    if j < steps.len() {
        assert(packed[j] == steps[j]);
        if j + 1 < steps.len() {
            assert(packed[j + 1] == steps[j + 1]);
        }
    }
}

/// The contents of proof steps and of compressed steps are their fields, one for one.
pub proof fn steps_by_fields(
    path: Seq<CausalProofStep>,
    steps: Seq<CompressedCausalStep>,
    i: int,
)
    ensures
        step_contents(path).len() == path.len(),
        0 <= i < path.len() ==> step_contents(path)[i].0 == path[i].hash@ && step_contents(
            path,
        )[i].1 == path[i].count,
        packed_steps(steps).len() == steps.len(),
        0 <= i < steps.len() ==> match steps[i] {
            CompressedCausalStep::Step(step) => packed_steps(steps)[i] == Packed::Step(
                step.hash@,
                step.count as nat,
            ),
            CompressedCausalStep::EmptyRun { start_depth, length } => packed_steps(steps)[i]
                == Packed::Run(start_depth as nat, length as nat),
        },
{
}

/// Every SHA3-256 digest has 32 bytes.
pub open spec fn digests_sized() -> bool {
    forall|input: Seq<u8>| #[trigger] sha3_256_bytes(input).len() == 32
}

/// What a proof hashes at a depth.
pub open spec fn step_image(
    terminal: (Seq<u8>, nat),
    terminal_depth: nat,
    key: Seq<u8>,
    path: Seq<(Seq<u8>, nat)>,
    depth: nat,
) -> Seq<u8> {
    let n = (terminal_depth - depth) as nat;
    let below = climb(terminal, terminal_depth, key, path, (n - 1) as nat)->0;
    let sibling = path[n - 1];
    if key_bit(key, depth as int) {
        node_image(depth, sibling, below)
    } else {
        node_image(depth, below, sibling)
    }
}

/// What a set hashes at a depth.
pub open spec fn set_image(keys: Set<Seq<u8>>, depth: nat) -> Seq<u8> {
    node_image(
        depth,
        subtree(side(keys, depth, false), depth + 1),
        subtree(side(keys, depth, true), depth + 1),
    )
}

/// On the way of the key from a depth down, what a proof hashes and what the set hashes
/// have the same digest only where they are the same.
pub open spec fn apart(
    terminal: (Seq<u8>, nat),
    terminal_depth: nat,
    key: Seq<u8>,
    path: Seq<(Seq<u8>, nat)>,
    keys: Set<Seq<u8>>,
    depth: nat,
) -> bool
    decreases terminal_depth - depth,
{
    depth < terminal_depth ==> {
        &&& distinct_digests(
            step_image(terminal, terminal_depth, key, path, depth),
            set_image(keys, depth),
        )
        &&& apart(
            terminal,
            terminal_depth,
            key,
            path,
            side(keys, depth, key_bit(key, depth as int)),
            depth + 1,
        )
    }
}

/// The keys that go the way of the key from one depth to another.
pub open spec fn beside_key(
    keys: Set<Seq<u8>>,
    key: Seq<u8>,
    depth: nat,
    end: nat,
) -> Set<Seq<u8>>
    decreases end - depth,
{
    if depth >= end {
        keys
    } else {
        beside_key(side(keys, depth, key_bit(key, depth as int)), key, depth + 1, end)
    }
}

proof fn subtree_sized(keys: Set<Seq<u8>>, depth: nat)
    requires
        digests_sized(),
        depth <= 256,
    ensures
        subtree(keys, depth).0.len() == 32,
{
    reveal_with_fuel(subtree, 1);
    assert(empty_digest(depth).len() == 32);
}

proof fn climb_sized(
    terminal: (Seq<u8>, nat),
    terminal_depth: nat,
    key: Seq<u8>,
    path: Seq<(Seq<u8>, nat)>,
    n: nat,
)
    requires
        digests_sized(),
        terminal.0.len() == 32,
    ensures
        climb(terminal, terminal_depth, key, path, n) matches Some(below) ==> below.0.len() == 32,
    decreases n,
{
    if n > 0 {
        climb_sized(terminal, terminal_depth, key, path, (n - 1) as nat);
    }
}

proof fn proof_follows_set(
    terminal: (Seq<u8>, nat),
    terminal_depth: nat,
    key: Seq<u8>,
    path: Seq<(Seq<u8>, nat)>,
    keys: Set<Seq<u8>>,
    depth: nat,
)
    requires
        digests_sized(),
        depth <= terminal_depth <= 256,
        path.len() == terminal_depth,
        terminal.0.len() == 32,
        forall|i: int| 0 <= i < path.len() ==> (#[trigger] path[i]).0.len() == 32,
        keys.finite(),
        keys.len() <= u64::MAX,
        agreeing(keys, depth),
        climb(terminal, terminal_depth, key, path, (terminal_depth - depth) as nat) == Some(
            subtree(keys, depth),
        ),
        apart(terminal, terminal_depth, key, path, keys, depth),
    ensures
        terminal == subtree(beside_key(keys, key, depth, terminal_depth), terminal_depth),
        beside_key(keys, key, depth, terminal_depth).subset_of(keys),
        keys.contains(key) ==> beside_key(keys, key, depth, terminal_depth).contains(key),
        agreeing(beside_key(keys, key, depth, terminal_depth), terminal_depth),
    decreases terminal_depth - depth,
{
    if depth < terminal_depth {
        let n = (terminal_depth - depth) as nat;
        let below = climb(terminal, terminal_depth, key, path, (n - 1) as nat)->0;
        let sibling = path[n - 1];
        let bit = key_bit(key, depth as int);
        let left = subtree(side(keys, depth, false), depth + 1);
        let right = subtree(side(keys, depth, true), depth + 1);
        subtree_by_sides(keys, depth, key);
        climb_sized(terminal, terminal_depth, key, path, (n - 1) as nat);
        subtree_sized(side(keys, depth, false), depth + 1);
        subtree_sized(side(keys, depth, true), depth + 1);
        side_agrees(keys, depth, false);
        side_agrees(keys, depth, true);
        assert(side(keys, depth, false).subset_of(keys));
        assert(side(keys, depth, true).subset_of(keys));
        vstd::set_lib::lemma_len_subset(side(keys, depth, false), keys);
        vstd::set_lib::lemma_len_subset(side(keys, depth, true), keys);
        subtree_count(side(keys, depth, false), depth + 1);
        subtree_count(side(keys, depth, true), depth + 1);
        let (first, second) = if bit {
            (sibling, below)
        } else {
            (below, sibling)
        };
        causal_node_binds(depth, first, second, depth, left, right);
        let half = side(keys, depth, bit);
        assert(below == subtree(half, depth + 1));
        proof_follows_set(terminal, terminal_depth, key, path, half, depth + 1);
    }
}

/// A proof of membership that leads to the root of a set is one of a key of the set, where
/// no two different inputs on the way have the same digest.
pub proof fn inclusion_is_sound(keys: Set<Seq<u8>>, key: Seq<u8>, path: Seq<(Seq<u8>, nat)>)
    requires
        digests_sized(),
        keys.finite(),
        keys.len() <= u64::MAX,
        agreeing(keys, 0),
        forall|i: int| 0 <= i < path.len() ==> (#[trigger] path[i]).0.len() == 32,
        climbs_to(
            (causal_leaf_digest(key), 1),
            256,
            key,
            path,
            (subtree(keys, 0).0, keys.len()),
        ),
        apart((causal_leaf_digest(key), 1), 256, key, path, keys, 0),
        forall|other: Seq<u8>| #[trigger]
            keys.contains(other) ==> distinct_digests(
                encode_utf8("msc4511:causal-leaf:v1"@) + key,
                encode_utf8("msc4511:causal-leaf:v1"@) + other,
            ),
    ensures
        keys.contains(key),
{
    let terminal = (causal_leaf_digest(key), 1nat);
    subtree_count(keys, 0);
    proof_follows_set(terminal, 256, key, path, keys, 0);
    let end = beside_key(keys, key, 0, 256);
    assert(end != Set::<Seq<u8>>::empty());
    if forall|k: Seq<u8>| !end.contains(k) {
        assert(end =~= Set::empty());
    }
    let last = end.choose();
    assert(end.contains(last));
    assert(keys.contains(last));
    causal_leaf_binds(key, last);
}

/// A proof of absence that leads to the root of a set is one of a key that the set does not
/// hold, where no two different inputs on the way have the same digest.
pub proof fn absence_is_sound(
    keys: Set<Seq<u8>>,
    key: Seq<u8>,
    terminal_depth: nat,
    path: Seq<(Seq<u8>, nat)>,
)
    requires
        digests_sized(),
        keys.finite(),
        keys.len() <= u64::MAX,
        agreeing(keys, 0),
        forall|i: int| 0 <= i < path.len() ==> (#[trigger] path[i]).0.len() == 32,
        absence_proved(key, terminal_depth, path, (subtree(keys, 0).0, keys.len())),
        apart((empty_digest(terminal_depth), 0), terminal_depth, key, path, keys, 0),
    ensures
        !keys.contains(key),
{
    let terminal = (empty_digest(terminal_depth), 0nat);
    subtree_count(keys, 0);
    subtree_sized(Set::empty(), terminal_depth);
    assert(terminal.0.len() == 32);
    proof_follows_set(terminal, terminal_depth, key, path, keys, 0);
    let end = beside_key(keys, key, 0, terminal_depth);
    vstd::set_lib::lemma_len_subset(end, keys);
    subtree_count(end, terminal_depth);
    if keys.contains(key) {
        assert(end.contains(key));
        assert(end.len() > 0) by {
            if end.len() == 0 {
                vstd::set_lib::lemma_set_empty_equivalency_len(end);
            }
        }
    }
}

/// A proof holds for one root and one count only.
pub proof fn proof_has_one_root(
    terminal: (Seq<u8>, nat),
    terminal_depth: nat,
    key: Seq<u8>,
    path: Seq<(Seq<u8>, nat)>,
    root: (Seq<u8>, nat),
    other: (Seq<u8>, nat),
)
    requires
        climbs_to(terminal, terminal_depth, key, path, root),
        climbs_to(terminal, terminal_depth, key, path, other),
    ensures
        root == other,
        path.len() == terminal_depth,
{
}

} // verus!
