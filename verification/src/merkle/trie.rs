//! The 256-level sparse Merkle sum trie over 32-byte keys.

use vstd::prelude::*;
use vstd::set_lib::lemma_set_disjoint_lens;
use vstd::utf8::encode_utf8;
use crate::bytes::{be_bytes, push_be};
use crate::primitives::{sha3_256, sha3_256_bytes};

verus! {

/// The bit of a key at a depth: the most significant bit of the first byte is
/// at depth zero.
pub open spec fn key_bit(key: Seq<u8>, depth: int) -> bool {
    (key[depth / 8] >> ((7 - depth % 8) as u8)) & 1u8 == 1u8
}

/// The bit of a key at a depth.
pub fn causal_bit(key: &[u8; 32], depth: usize) -> (bit: u8)
    requires
        depth < 256,
    ensures
        bit == 0 || bit == 1,
        (bit == 1) == key_bit(key@, depth as int),
{
    let byte: u8 = key[depth / 8];
    let shift: u8 = (7 - depth % 8) as u8;
    let bit: u8 = (byte >> shift) & 1;
    proof {
        assert((byte >> shift) & 1 == 0 || (byte >> shift) & 1 == 1) by (bit_vector);
    }
    bit
}

/// The digest of a key's leaf.
pub open spec fn causal_leaf_digest(key: Seq<u8>) -> Seq<u8> {
    sha3_256_bytes(encode_utf8("msc4511:causal-leaf:v1"@) + key)
}

/// Computes SHA3-256("msc4511:causal-leaf:v1" || `key`).
pub fn causal_leaf(key: &[u8; 32]) -> (hash: [u8; 32])
    ensures
        hash@ == causal_leaf_digest(key@),
{
    let mut data: Vec<u8> = Vec::new();
    data.extend_from_slice("msc4511:causal-leaf:v1".as_bytes());
    data.extend_from_slice(key.as_slice());
    proof {
        assert(data@ =~= encode_utf8("msc4511:causal-leaf:v1"@) + key@);
    }
    sha3_256(data.as_slice())
}

/// The digest of an inner node from the digests and counts of its children.
pub open spec fn causal_node_digest(
    depth: nat,
    left: (Seq<u8>, nat),
    right: (Seq<u8>, nat),
) -> Seq<u8> {
    sha3_256_bytes(
        encode_utf8("msc4511:causal-node:v1"@) + be_bytes(depth, 2) + left.0 + be_bytes(left.1, 8)
            + right.0 + be_bytes(right.1, 8),
    )
}

/// Computes SHA3-256("msc4511:causal-node:v1" || `u16be(depth)` || `left_hash` ||
/// `u64be(left_count)` || `right_hash` || `u64be(right_count)`).
pub fn causal_node(
    depth: u16,
    left_hash: &[u8; 32],
    left_count: u64,
    right_hash: &[u8; 32],
    right_count: u64,
) -> (hash: [u8; 32])
    ensures
        hash@ == causal_node_digest(
            depth as nat,
            (left_hash@, left_count as nat),
            (right_hash@, right_count as nat),
        ),
{
    let mut data: Vec<u8> = Vec::new();
    data.extend_from_slice("msc4511:causal-node:v1".as_bytes());
    push_be(&mut data, depth as u128, 2);
    data.extend_from_slice(left_hash.as_slice());
    push_be(&mut data, left_count as u128, 8);
    data.extend_from_slice(right_hash.as_slice());
    push_be(&mut data, right_count as u128, 8);
    proof {
        assert(data@ =~= encode_utf8("msc4511:causal-node:v1"@) + be_bytes(depth as nat, 2)
            + left_hash@ + be_bytes(left_count as nat, 8) + right_hash@ + be_bytes(
            right_count as nat,
            8,
        ));
    }
    sha3_256(data.as_slice())
}

/// The digest of an empty subtree at a depth.
pub open spec fn empty_digest(depth: nat) -> Seq<u8>
    decreases 256 - depth,
{
    if depth >= 256 {
        sha3_256_bytes(encode_utf8("msc4511:causal-empty-leaf:v1"@))
    } else {
        let below = (empty_digest(depth + 1), 0nat);
        causal_node_digest(depth, below, below)
    }
}

/// The canonical empty-subtree hash at every depth from 0 to 256, built bottom-up
/// in one pass.
pub fn empty_table() -> (table: Vec<[u8; 32]>)
    ensures
        table@.len() == 257,
        forall|d: int| 0 <= d <= 256 ==> (#[trigger] table@[d])@ == empty_digest(d as nat),
{
    let leaf: [u8; 32] = sha3_256("msc4511:causal-empty-leaf:v1".as_bytes());
    let mut upward: Vec<[u8; 32]> = Vec::new();
    upward.push(leaf);
    let mut depth: usize = 256;
    while depth > 0
        invariant
            depth <= 256,
            upward@.len() == 257 - depth,
            forall|i: int|
                0 <= i < upward@.len() ==> (#[trigger] upward@[i])@ == empty_digest(
                    (256 - i) as nat,
                ),
        decreases depth,
    {
        let child: [u8; 32] = upward[upward.len() - 1];
        depth = depth - 1;
        proof {
            assert(child@ == empty_digest((depth + 1) as nat));
        }
        upward.push(causal_node(depth as u16, &child, 0, &child, 0));
    }
    let mut table: Vec<[u8; 32]> = Vec::new();
    while table.len() < 257
        invariant
            upward@.len() == 257,
            table@.len() <= 257,
            forall|i: int|
                0 <= i < upward@.len() ==> (#[trigger] upward@[i])@ == empty_digest(
                    (256 - i) as nat,
                ),
            forall|d: int|
                0 <= d < table@.len() ==> (#[trigger] table@[d])@ == empty_digest(d as nat),
        decreases 257 - table.len(),
    {
        let hash: [u8; 32] = upward[256 - table.len()];
        table.push(hash);
    }
    table
}

/// The keys whose bit at a depth is as given.
pub open spec fn side(keys: Set<Seq<u8>>, depth: nat, bit: bool) -> Set<Seq<u8>> {
    keys.filter(|k: Seq<u8>| key_bit(k, depth as int) == bit)
}

/// The digest and the count of the subtree at a depth that holds the keys.
pub open spec fn subtree(keys: Set<Seq<u8>>, depth: nat) -> (Seq<u8>, nat)
    decreases 256 - depth,
{
    if keys == Set::<Seq<u8>>::empty() {
        (empty_digest(depth), 0)
    } else if depth >= 256 {
        (causal_leaf_digest(keys.choose()), 1)
    } else {
        let left = subtree(side(keys, depth, false), depth + 1);
        let right = subtree(side(keys, depth, true), depth + 1);
        (causal_node_digest(depth, left, right), left.1 + right.1)
    }
}

/// The keys are 32 bytes long and have the same bits above a depth.
pub open spec fn agreeing(keys: Set<Seq<u8>>, depth: nat) -> bool {
    &&& forall|k: Seq<u8>| #[trigger] keys.contains(k) ==> k.len() == 32
    &&& forall|a: Seq<u8>, b: Seq<u8>, d: int|
        keys.contains(a) && keys.contains(b) && 0 <= d < depth ==> #[trigger] key_bit(a, d)
            == #[trigger] key_bit(b, d)
}

proof fn byte_bits(a: u8, b: u8)
    by (bit_vector)
    requires
        (a >> 7u8) & 1u8 == (b >> 7u8) & 1u8,
        (a >> 6u8) & 1u8 == (b >> 6u8) & 1u8,
        (a >> 5u8) & 1u8 == (b >> 5u8) & 1u8,
        (a >> 4u8) & 1u8 == (b >> 4u8) & 1u8,
        (a >> 3u8) & 1u8 == (b >> 3u8) & 1u8,
        (a >> 2u8) & 1u8 == (b >> 2u8) & 1u8,
        (a >> 1u8) & 1u8 == (b >> 1u8) & 1u8,
        (a >> 0u8) & 1u8 == (b >> 0u8) & 1u8,
    ensures
        a == b,
{
}

proof fn bit_is_binary(a: u8, s: u8)
    by (bit_vector)
    ensures
        (a >> s) & 1u8 == 0u8 || (a >> s) & 1u8 == 1u8,
{
}

/// Keys with the same bits are the same.
pub proof fn bits_determine(a: Seq<u8>, b: Seq<u8>)
    requires
        a.len() == 32,
        b.len() == 32,
        forall|d: int| 0 <= d < 256 ==> #[trigger] key_bit(a, d) == key_bit(b, d),
    ensures
        a == b,
{
    assert forall|i: int| 0 <= i < 32 implies a[i] == b[i] by {
        assert forall|s: u8| s < 8 implies (a[i] >> s) & 1u8 == #[trigger] ((b[i] >> s) & 1u8) by {
            let d = 8 * i + 7 - s;
            assert(key_bit(a, d) == key_bit(b, d));
            assert(d / 8 == i && d % 8 == 7 - s);
            bit_is_binary(a[i], s);
            bit_is_binary(b[i], s);
        }
        assert((b[i] >> 7u8) & 1u8 == (a[i] >> 7u8) & 1u8);
        assert((b[i] >> 6u8) & 1u8 == (a[i] >> 6u8) & 1u8);
        assert((b[i] >> 5u8) & 1u8 == (a[i] >> 5u8) & 1u8);
        assert((b[i] >> 4u8) & 1u8 == (a[i] >> 4u8) & 1u8);
        assert((b[i] >> 3u8) & 1u8 == (a[i] >> 3u8) & 1u8);
        assert((b[i] >> 2u8) & 1u8 == (a[i] >> 2u8) & 1u8);
        assert((b[i] >> 1u8) & 1u8 == (a[i] >> 1u8) & 1u8);
        assert((b[i] >> 0u8) & 1u8 == (a[i] >> 0u8) & 1u8);
        byte_bits(a[i], b[i]);
    }
    assert(a =~= b);
}

/// One side of agreeing keys agrees one level further down.
pub proof fn side_agrees(keys: Set<Seq<u8>>, depth: nat, bit: bool)
    requires
        agreeing(keys, depth),
    ensures
        agreeing(side(keys, depth, bit), depth + 1),
{
}

/// Keys that agree in every bit are one key at most.
pub proof fn agreeing_single(keys: Set<Seq<u8>>, a: Seq<u8>, b: Seq<u8>)
    requires
        agreeing(keys, 256),
        keys.contains(a),
        keys.contains(b),
    ensures
        a == b,
{
    bits_determine(a, b);
}

/// The count of a subtree is the number of its keys.
pub proof fn subtree_count(keys: Set<Seq<u8>>, depth: nat)
    requires
        depth <= 256,
        keys.finite(),
        agreeing(keys, depth),
    ensures
        subtree(keys, depth).1 == keys.len(),
    decreases 256 - depth,
{
    if keys == Set::<Seq<u8>>::empty() {
    } else if depth >= 256 {
        let key = keys.choose();
        assert(keys =~= set![key]) by {
            assert forall|k: Seq<u8>| keys.contains(k) implies k == key by {
                agreeing_single(keys, k, key);
            }
            assert(keys.contains(key)) by {
                if !keys.contains(key) {
                    assert(keys =~= Set::<Seq<u8>>::empty());
                }
            }
        }
    } else {
        let left = side(keys, depth, false);
        let right = side(keys, depth, true);
        side_agrees(keys, depth, false);
        side_agrees(keys, depth, true);
        subtree_count(left, depth + 1);
        subtree_count(right, depth + 1);
        assert(keys =~= left + right);
        lemma_set_disjoint_lens(left, right);
    }
}

/// A node of the trie. Every node holds at least one key.
#[derive(Debug, PartialEq, Eq)]
pub enum CausalTrie {
    /// A key, below the last level.
    Leaf { key: [u8; 32], hash: [u8; 32] },
    /// The keys whose next bit is clear, and those whose next bit is set.
    Branch {
        hash: [u8; 32],
        count: u64,
        left: Option<Box<CausalTrie>>,
        right: Option<Box<CausalTrie>>,
    },
}

/// The keys of a node.
pub open spec fn trie_keys(trie: CausalTrie) -> Set<Seq<u8>>
    decreases trie,
{
    match trie {
        CausalTrie::Leaf { key, .. } => set![key@],
        CausalTrie::Branch { left, right, .. } => {
            let l = match left {
                Some(child) => trie_keys(*child),
                None => Set::empty(),
            };
            let r = match right {
                Some(child) => trie_keys(*child),
                None => Set::empty(),
            };
            l.union(r)
        },
    }
}

/// The keys of a node that may be missing.
pub open spec fn node_keys(trie: Option<Box<CausalTrie>>) -> Set<Seq<u8>> {
    match trie {
        Some(trie) => trie_keys(*trie),
        None => Set::empty(),
    }
}

/// The node at a depth has its keys where their bits lead, with the right digest
/// and count.
pub open spec fn trie_wf(trie: CausalTrie, depth: nat) -> bool
    decreases trie,
{
    &&& agreeing(trie_keys(trie), depth)
    &&& trie_keys(trie).finite()
    &&& trie_keys(trie) != Set::<Seq<u8>>::empty()
    &&& match trie {
        CausalTrie::Leaf { key, hash } => depth == 256 && hash@ == causal_leaf_digest(key@),
        CausalTrie::Branch { hash, count, left, right } => {
            &&& depth < 256
            &&& left matches Some(child) ==> trie_wf(*child, depth + 1)
            &&& right matches Some(child) ==> trie_wf(*child, depth + 1)
            &&& node_keys(left) == side(trie_keys(trie), depth, false)
            &&& node_keys(right) == side(trie_keys(trie), depth, true)
            &&& (hash@, count as nat) == subtree(trie_keys(trie), depth)
        },
    }
}

/// A node that may be missing is as it should be.
pub open spec fn node_wf(trie: Option<Box<CausalTrie>>, depth: nat) -> bool {
    trie matches Some(trie) ==> trie_wf(*trie, depth)
}

/// The digest and the count of a node that may be missing.
pub(crate) fn summary(trie: &Option<Box<CausalTrie>>, depth: usize, empty: &Vec<[u8; 32]>) -> (found: (
    [u8; 32],
    u64,
))
    requires
        depth <= 256,
        node_wf(*trie, depth as nat),
        empty@.len() == 257,
        empty@[depth as int]@ == empty_digest(depth as nat),
    ensures
        (found.0@, found.1 as nat) == subtree(node_keys(*trie), depth as nat),
{
    match trie {
        Some(node) => match &**node {
            CausalTrie::Leaf { key, hash } => {
                proof {
                    let keys = trie_keys(**node);
                    assert(keys.contains(key@));
                    assert(keys.contains(keys.choose()));
                }
                (*hash, 1)
            },
            CausalTrie::Branch { hash, count, .. } => (*hash, *count),
        },
        None => (empty[depth], 0),
    }
}

/// The node at a depth with one more key.
pub(crate) fn insert_key(
    trie: Option<Box<CausalTrie>>,
    key: &[u8; 32],
    depth: usize,
    empty: &Vec<[u8; 32]>,
) -> (changed: Box<CausalTrie>)
    requires
        depth <= 256,
        node_wf(trie, depth as nat),
        node_keys(trie).finite(),
        agreeing(node_keys(trie).insert(key@), depth as nat),
        !node_keys(trie).contains(key@),
        node_keys(trie).len() < u64::MAX,
        empty@.len() == 257,
        forall|d: int| 0 <= d <= 256 ==> (#[trigger] empty@[d])@ == empty_digest(d as nat),
    ensures
        trie_wf(*changed, depth as nat),
        trie_keys(*changed) == node_keys(trie).insert(key@),
    decreases 256 - depth,
{
    let ghost before = node_keys(trie);
    let ghost after = before.insert(key@);
    if depth >= 256 {
        proof {
            assert forall|k: Seq<u8>| !before.contains(k) by {
                if before.contains(k) {
                    agreeing_single(after, k, key@);
                }
            }
            assert(after =~= set![key@]);
        }
        return Box::new(CausalTrie::Leaf { key: *key, hash: causal_leaf(key) });
    }
    let (left, right): (Option<Box<CausalTrie>>, Option<Box<CausalTrie>>) = match trie {
        Some(node) => match *node {
            CausalTrie::Leaf { .. } => (None, None),
            CausalTrie::Branch { left, right, .. } => (left, right),
        },
        None => (None, None),
    };
    let ghost low = side(before, depth as nat, false);
    let ghost high = side(before, depth as nat, true);
    let bit: bool = causal_bit(key, depth) == 1;
    proof {
        assert(node_keys(left) =~= low);
        assert(node_keys(right) =~= high);
        vstd::set_lib::lemma_len_subset(low, before);
        vstd::set_lib::lemma_len_subset(high, before);
        side_agrees(after, depth as nat, bit);
        assert(side(after, depth as nat, bit) =~= side(before, depth as nat, bit).insert(key@));
        assert(side(after, depth as nat, !bit) =~= side(before, depth as nat, !bit));
    }
    let (left, right): (Option<Box<CausalTrie>>, Option<Box<CausalTrie>>) = if bit {
        (left, Some(insert_key(right, key, depth + 1, empty)))
    } else {
        (Some(insert_key(left, key, depth + 1, empty)), right)
    };
    let (left_hash, left_count) = summary(&left, depth + 1, empty);
    let (right_hash, right_count) = summary(&right, depth + 1, empty);
    proof {
        assert(node_keys(left) == side(after, depth as nat, false));
        assert(node_keys(right) == side(after, depth as nat, true));
        assert(node_keys(left).union(node_keys(right)) =~= after);
        assert(after.contains(key@));
        assert(after != Set::<Seq<u8>>::empty());
        subtree_count(after, depth as nat);
    }
    let hash: [u8; 32] = causal_node(depth as u16, &left_hash, left_count, &right_hash, right_count);
    Box::new(CausalTrie::Branch { hash, count: left_count + right_count, left, right })
}

/// Whether the node at a depth has a key.
pub(crate) fn has_key(trie: &Option<Box<CausalTrie>>, key: &[u8; 32], depth: usize) -> (found: bool)
    requires
        depth <= 256,
        node_wf(*trie, depth as nat),
        forall|k: Seq<u8>, d: int|
            node_keys(*trie).contains(k) && 0 <= d < depth ==> #[trigger] key_bit(k, d)
                == key_bit(key@, d),
    ensures
        found == node_keys(*trie).contains(key@),
    decreases 256 - depth,
{
    match trie {
        Some(node) => match &**node {
            CausalTrie::Leaf { key: held, .. } => {
                proof {
                    assert(trie_keys(**node).contains(held@));
                    bits_determine(held@, key@);
                }
                true
            },
            CausalTrie::Branch { left, right, .. } => {
                if causal_bit(key, depth) == 1 {
                    has_key(right, key, depth + 1)
                } else {
                    has_key(left, key, depth + 1)
                }
            },
        },
        None => false,
    }
}

/// A copy of a node.
pub(crate) fn copy_node(trie: &Option<Box<CausalTrie>>) -> (copy: Option<Box<CausalTrie>>)
    ensures
        copy == *trie,
    decreases trie,
{
    match trie {
        Some(node) => Some(
            Box::new(
                match &**node {
                    CausalTrie::Leaf { key, hash } => CausalTrie::Leaf { key: *key, hash: *hash },
                    CausalTrie::Branch { hash, count, left, right } => CausalTrie::Branch {
                        hash: *hash,
                        count: *count,
                        left: copy_node(left),
                        right: copy_node(right),
                    },
                },
            ),
        ),
        None => None,
    }
}

} // verus!
