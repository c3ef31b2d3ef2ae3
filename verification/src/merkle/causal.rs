//! The causal sparse Merkle sum trie: a 256-level structure committing the set
//! of event IDs in an event's strict causal past.

use vstd::prelude::*;
use super::trie::{
    agreeing, agreeing_single, causal_bit, causal_leaf, causal_leaf_digest, causal_node,
    causal_node_digest, copy_node, empty_digest, empty_table, has_key, insert_key, key_bit,
    node_keys, node_wf, side, side_agrees, subtree, subtree_count, summary, trie_keys, trie_wf,
    CausalTrie,
};
use super::UnsignedRoot;
use crate::hamt::hash::same_hash;

pub use super::compress::{
    compress_causal_path, decompress_causal_path, verify_causal_inclusion_compressed,
    verify_causal_non_inclusion_compressed, CausalProofError, CompressedCausalStep,
};

verus! {

/// The number of bit-levels in the causal sparse Merkle sum trie: one level per
/// bit of a 32-byte event-ID digest key.
pub const CAUSAL_DEPTH: usize = 256;

/// The canonical empty causal set root hash.
#[must_use]
pub fn empty_root() -> (hash: [u8; 32])
    ensures
        hash@ == empty_digest(0),
{
    let table: Vec<[u8; 32]> = empty_table();
    table[0]
}

/// An in-memory population of event-ID keys committed by a 256-level sparse
/// Merkle sum trie.
///
/// The trie is maintained incrementally: each insertion updates only the nodes
/// along the inserted key's path.
#[derive(Debug, PartialEq, Eq)]
pub struct CausalSet {
    pub trie: Option<Box<CausalTrie>>,
}

/// One sibling in a causal sparse Merkle sum trie path, ordered leaf-to-root:
/// applying each step in order reconstructs the trie root and count.
///
/// The side (left/right) is not stored here: it is derived from the key bit at
/// each depth during verification. This removes a redundant field from the wire
/// format and eliminates an entire class of forgery.
#[derive(Debug, Clone, Copy, PartialEq, Eq)]
pub struct CausalProofStep {
    pub hash: [u8; 32],
    pub count: u64,
}

/// The hashes and counts of a path.
pub open spec fn step_contents(path: Seq<CausalProofStep>) -> Seq<(Seq<u8>, nat)> {
    Seq::new(path.len(), |i: int| (path[i].hash@, path[i].count as nat))
}

impl CausalSet {
    /// The committed keys.
    pub open spec fn view(&self) -> Set<Seq<u8>> {
        node_keys(self.trie)
    }

    /// Every node has the digest and the count of its keys.
    pub open spec fn wf(&self) -> bool {
        node_wf(self.trie, 0)
    }

    /// The committed keys are finitely many, of 32 bytes each.
    pub proof fn key_facts(&self)
        requires
            self.wf(),
        ensures
            self@.finite(),
            agreeing(self@, 0),
    {
    }

    /// Returns the canonical empty causal set.
    #[must_use]
    pub fn empty() -> (set: Self)
        ensures
            set.wf(),
            set@ == Set::<Seq<u8>>::empty(),
    {
        CausalSet { trie: None }
    }

    /// Inserts a key in place. Returns whether it was new.
    pub fn insert_mut(&mut self, key: [u8; 32]) -> (new: bool)
        requires
            old(self).wf(),
            old(self)@.len() < u64::MAX,
        ensures
            final(self).wf(),
            final(self)@ == old(self)@.insert(key@),
            new == !old(self)@.contains(key@),
    {
        proof {
            old(self).key_facts();
        }
        if has_key(&self.trie, &key, 0) {
            proof {
                assert(self@.insert(key@) =~= self@);
            }
            return false;
        }
        let empty: Vec<[u8; 32]> = empty_table();
        let mut trie: Option<Box<CausalTrie>> = None;
        core::mem::swap(&mut trie, &mut self.trie);
        self.trie = Some(insert_key(trie, &key, 0, &empty));
        true
    }

    /// Inserts every key of a list in place.
    pub fn extend(&mut self, keys: &[[u8; 32]])
        requires
            old(self).wf(),
            old(self)@.len() + keys@.len() <= u64::MAX,
        ensures
            final(self).wf(),
            final(self)@ == old(self)@.union(key_contents(keys@).to_set()),
    {
        let ghost before = self@;
        let ghost contents = key_contents(keys@);
        let mut index: usize = 0;
        proof {
            assert(contents.take(0).to_set() =~= Set::<Seq<u8>>::empty());
            assert(before.union(contents.take(0).to_set()) =~= before);
        }
        while index < keys.len()
            invariant
                index <= keys.len(),
                self.wf(),
                contents == key_contents(keys@),
                before.len() + keys@.len() <= u64::MAX,
                self@ == before.union(contents.take(index as int).to_set()),
                self@.len() <= before.len() + index,
            decreases keys.len() - index,
        {
            proof {
                self.key_facts();
                let next = contents.take(index + 1);
                assert(next =~= contents.take(index as int).push(keys@[index as int]@));
                assert(next.to_set() =~= contents.take(index as int).to_set().insert(
                    keys@[index as int]@,
                )) by {
                    assert forall|k: Seq<u8>| next.to_set().contains(k) == contents.take(
                        index as int,
                    ).to_set().insert(keys@[index as int]@).contains(k) by {
                        push_members(contents.take(index as int), keys@[index as int]@, k);
                    }
                }
                assert(before.union(next.to_set()) =~= self@.insert(keys@[index as int]@));
            }
            let _new: bool = self.insert_mut(keys[index]);
            index = index + 1;
        }
        proof {
            assert(contents.take(index as int) =~= contents);
        }
    }

    /// A copy of the set.
    pub fn duplicate(&self) -> (copy: Self)
        ensures
            copy == *self,
    {
        CausalSet { trie: copy_node(&self.trie) }
    }

    /// Returns a new set containing every key in `self` plus `key`. A no-op
    /// (returns an equal set) if `key` is already a member.
    #[must_use]
    pub fn insert(&self, key: [u8; 32]) -> (next: Self)
        requires
            self.wf(),
            self@.len() < u64::MAX,
        ensures
            next.wf(),
            next@ == self@.insert(key@),
    {
        let mut next: CausalSet = self.duplicate();
        let _new: bool = next.insert_mut(key);
        next
    }

    /// Returns the set union of `self` and `other`, eliminating duplicates, as
    /// required for a multi-predecessor merge event's transition.
    #[must_use]
    pub fn union(&self, other: &Self) -> (next: Self)
        requires
            self.wf(),
            other.wf(),
            self@.len() + other@.len() <= u64::MAX,
        ensures
            next.wf(),
            next@ == self@.union(other@),
    {
        let mut next: CausalSet = self.duplicate();
        let mut keys: Vec<[u8; 32]> = Vec::new();
        proof {
            other.key_facts();
        }
        collect_keys(&other.trie, 0, &mut keys);
        proof {
            assert(key_contents(keys@).to_set() =~= other@);
        }
        next.extend(keys.as_slice());
        next
    }

    /// Reports whether `key` is a member of `self`.
    #[must_use]
    pub fn contains(&self, key: &[u8; 32]) -> (found: bool)
        requires
            self.wf(),
        ensures
            found == self@.contains(key@),
    {
        has_key(&self.trie, key, 0)
    }

    /// Returns the number of distinct keys committed by `self`.
    #[must_use]
    pub fn count(&self) -> (count: u64)
        requires
            self.wf(),
        ensures
            count == self@.len(),
    {
        proof {
            self.key_facts();
            subtree_count(self@, 0);
        }
        let empty: Vec<[u8; 32]> = empty_table();
        summary(&self.trie, 0, &empty).1
    }

    /// Computes the canonical sparse Merkle sum trie root for `self`.
    #[must_use]
    pub fn root(&self) -> (hash: [u8; 32])
        requires
            self.wf(),
        ensures
            hash@ == subtree(self@, 0).0,
    {
        let empty: Vec<[u8; 32]> = empty_table();
        summary(&self.trie, 0, &empty).0
    }

    /// Like `root`, wrapped as an [`UnsignedRoot`]. Prefer this at any call site
    /// that hands the root outside the local process.
    #[must_use]
    pub fn unsigned_root(&self) -> (root: UnsignedRoot)
        requires
            self.wf(),
        ensures
            root.0@ == subtree(self@, 0).0,
    {
        UnsignedRoot(self.root())
    }

    /// Returns the ordered (leaf-to-root) sibling path proving `key` is a member
    /// of `self`, along with `self`'s root and count. Returns [`None`] if `key`
    /// is not a member.
    #[must_use]
    pub fn inclusion_proof(&self, key: &[u8; 32]) -> (found: Option<
        (Vec<CausalProofStep>, [u8; 32], u64),
    >)
        requires
            self.wf(),
        ensures
            match found {
                Some((path, hash, count)) => {
                    &&& self@.contains(key@)
                    &&& step_contents(path@) == member_path(self@, key@, 0)
                    &&& hash@ == subtree(self@, 0).0
                    &&& count == self@.len()
                },
                None => !self@.contains(key@),
            },
    {
        if !self.contains(key) {
            return None;
        }
        let empty: Vec<[u8; 32]> = empty_table();
        let mut path: Vec<CausalProofStep> = Vec::new();
        proof {
            self.key_facts();
        }
        let _depth: usize = collect_path(&self.trie, key, 0, &empty, &mut path);
        proof {
            member_descends(self@, key@, 0);
            assert(step_contents(path@) =~= member_path(self@, key@, 0));
        }
        Some((path, self.root(), self.count()))
    }

    /// Returns the ordered (leaf-to-root) sibling path proving `key` is not a
    /// member of `self` (the key-directed path terminates in a canonical empty
    /// subtree at the returned depth), along with `self`'s root and count.
    /// Returns [`None`] if `key` is a member.
    #[must_use]
    pub fn non_inclusion_proof(&self, key: &[u8; 32]) -> (found: Option<
        (Vec<CausalProofStep>, usize, [u8; 32], u64),
    >)
        requires
            self.wf(),
        ensures
            match found {
                Some((path, depth, hash, count)) => {
                    &&& !self@.contains(key@)
                    &&& step_contents(path@) == descent(self@, key@, 0)
                    &&& depth == end_depth(self@, key@, 0)
                    &&& hash@ == subtree(self@, 0).0
                    &&& count == self@.len()
                },
                None => self@.contains(key@),
            },
    {
        if self.contains(key) {
            return None;
        }
        let empty: Vec<[u8; 32]> = empty_table();
        let mut path: Vec<CausalProofStep> = Vec::new();
        proof {
            self.key_facts();
        }
        let depth: usize = collect_path(&self.trie, key, 0, &empty, &mut path);
        proof {
            assert(step_contents(path@) =~= descent(self@, key@, 0));
        }
        Some((path, depth, self.root(), self.count()))
    }
}

impl Clone for CausalSet {
    fn clone(&self) -> (copy: Self)
        ensures
            copy == *self,
    {
        self.duplicate()
    }
}

impl Default for CausalSet {
    fn default() -> (set: Self)
        ensures
            set.wf(),
            set@ == Set::<Seq<u8>>::empty(),
    {
        CausalSet::empty()
    }
}

/// The contents of keys.
pub open spec fn key_contents(keys: Seq<[u8; 32]>) -> Seq<Seq<u8>> {
    Seq::new(keys.len(), |i: int| keys[i]@)
}

proof fn push_members(items: Seq<Seq<u8>>, item: Seq<u8>, asked: Seq<u8>)
    ensures
        items.push(item).contains(asked) <==> items.contains(asked) || asked == item,
{
    let all = items.push(item);
    if items.contains(asked) {
        let i = choose|i: int| 0 <= i < items.len() && items[i] == asked;
        assert(all[i] == asked);
    }
    if asked == item {
        assert(all[items.len() as int] == asked);
    }
}

/// Appends the keys of a node.
fn collect_keys(trie: &Option<Box<CausalTrie>>, depth: usize, keys: &mut Vec<[u8; 32]>)
    requires
        depth <= 256,
        node_wf(*trie, depth as nat),
        node_keys(*trie).finite(),
        agreeing(node_keys(*trie), depth as nat),
    ensures
        final(keys)@.len() == old(keys)@.len() + node_keys(*trie).len(),
        forall|k: Seq<u8>| #[trigger]
            key_contents(final(keys)@).contains(k) <==> key_contents(old(keys)@).contains(k)
                || node_keys(*trie).contains(k),
    decreases 256 - depth,
{
    match trie {
        Some(node) => match &**node {
            CausalTrie::Leaf { key, .. } => {
                let ghost before = key_contents(keys@);
                keys.push(*key);
                proof {
                    assert(key_contents(keys@) =~= before.push(key@));
                    assert forall|k: Seq<u8>| #[trigger]
                        key_contents(keys@).contains(k) <==> before.contains(k) || node_keys(
                            *trie,
                        ).contains(k) by {
                        push_members(before, key@, k);
                    }
                }
            },
            CausalTrie::Branch { left, right, .. } => {
                proof {
                    let all = node_keys(*trie);
                    let low = side(all, depth as nat, false);
                    let high = side(all, depth as nat, true);
                    side_agrees(all, depth as nat, false);
                    side_agrees(all, depth as nat, true);
                    assert(all =~= low + high);
                    vstd::set_lib::lemma_set_disjoint_lens(low, high);
                }
                collect_keys(left, depth + 1, keys);
                collect_keys(right, depth + 1, keys);
            },
        },
        None => {},
    }
}

/// The siblings on the way from a member's leaf to the root.
pub open spec fn member_path(keys: Set<Seq<u8>>, key: Seq<u8>, depth: nat) -> Seq<(Seq<u8>, nat)>
    decreases 256 - depth,
{
    if depth >= 256 {
        Seq::empty()
    } else {
        let bit = key_bit(key, depth as int);
        member_path(side(keys, depth, bit), key, depth + 1).push(
            subtree(side(keys, depth, !bit), depth + 1),
        )
    }
}

/// The siblings on the way back from where the descent along a key ends: at an
/// empty subtree or below the last level.
pub open spec fn descent(keys: Set<Seq<u8>>, key: Seq<u8>, depth: nat) -> Seq<(Seq<u8>, nat)>
    decreases 256 - depth,
{
    if depth >= 256 || keys == Set::<Seq<u8>>::empty() {
        Seq::empty()
    } else {
        let bit = key_bit(key, depth as int);
        descent(side(keys, depth, bit), key, depth + 1).push(
            subtree(side(keys, depth, !bit), depth + 1),
        )
    }
}

/// The depth at which the descent along a key ends.
pub open spec fn end_depth(keys: Set<Seq<u8>>, key: Seq<u8>, depth: nat) -> nat
    decreases 256 - depth,
{
    if depth >= 256 || keys == Set::<Seq<u8>>::empty() {
        depth
    } else {
        end_depth(side(keys, depth, key_bit(key, depth as int)), key, depth + 1)
    }
}

/// The descent along a member goes all the way.
proof fn member_descends(keys: Set<Seq<u8>>, key: Seq<u8>, depth: nat)
    requires
        depth <= 256,
        keys.contains(key),
    ensures
        descent(keys, key, depth) == member_path(keys, key, depth),
        end_depth(keys, key, depth) == 256,
    decreases 256 - depth,
{
    if depth < 256 {
        member_descends(side(keys, depth, key_bit(key, depth as int)), key, depth + 1);
    }
}

/// Appends the siblings of the descent along a key, deepest first.
fn collect_path(
    trie: &Option<Box<CausalTrie>>,
    key: &[u8; 32],
    depth: usize,
    empty: &Vec<[u8; 32]>,
    path: &mut Vec<CausalProofStep>,
) -> (end: usize)
    requires
        depth <= 256,
        node_wf(*trie, depth as nat),
        empty@.len() == 257,
        forall|d: int| 0 <= d <= 256 ==> (#[trigger] empty@[d])@ == empty_digest(d as nat),
        old(path)@.len() == 0,
    ensures
        step_contents(final(path)@) == descent(node_keys(*trie), key@, depth as nat),
        end == end_depth(node_keys(*trie), key@, depth as nat),
    decreases 256 - depth,
{
    proof {
        assert(step_contents(path@) =~= Seq::empty());
    }
    match trie {
        Some(node) => match &**node {
            CausalTrie::Leaf { .. } => depth,
            CausalTrie::Branch { left, right, .. } => {
                let ghost keys = trie_keys(**node);
                let bit: bool = causal_bit(key, depth) == 1;
                let end: usize = if bit {
                    collect_path(right, key, depth + 1, empty, path)
                } else {
                    collect_path(left, key, depth + 1, empty, path)
                };
                let (hash, count) = if bit {
                    summary(left, depth + 1, empty)
                } else {
                    summary(right, depth + 1, empty)
                };
                let ghost before = path@;
                path.push(CausalProofStep { hash, count });
                proof {
                    assert(step_contents(path@) =~= step_contents(before).push(
                        (hash@, count as nat),
                    ));
                    assert((hash@, count as nat) == subtree(
                        side(keys, depth as nat, !bit),
                        (depth + 1) as nat,
                    ));
                }
                end
            },
        },
        None => depth,
    }
}

/// The digest and count that the first steps of a path lead to from a terminal
/// node, unless the count outgrows 64 bits.
pub open spec fn climb(
    terminal: (Seq<u8>, nat),
    terminal_depth: nat,
    key: Seq<u8>,
    path: Seq<(Seq<u8>, nat)>,
    n: nat,
) -> Option<(Seq<u8>, nat)>
    decreases n,
{
    if n == 0 {
        Some(terminal)
    } else {
        match climb(terminal, terminal_depth, key, path, (n - 1) as nat) {
            Some(below) => {
                let depth = (terminal_depth - n) as nat;
                let sibling = path[n - 1];
                if below.1 + sibling.1 > u64::MAX {
                    None
                } else if key_bit(key, depth as int) {
                    Some((causal_node_digest(depth, sibling, below), below.1 + sibling.1))
                } else {
                    Some((causal_node_digest(depth, below, sibling), below.1 + sibling.1))
                }
            },
            None => None,
        }
    }
}

/// A path of the right length leads from the terminal node to the root.
pub open spec fn climbs_to(
    terminal: (Seq<u8>, nat),
    terminal_depth: nat,
    key: Seq<u8>,
    path: Seq<(Seq<u8>, nat)>,
    root: (Seq<u8>, nat),
) -> bool {
    &&& path.len() == terminal_depth
    &&& climb(terminal, terminal_depth, key, path, terminal_depth) == Some(root)
}

/// A failed climb stays failed.
proof fn climb_stays_failed(
    terminal: (Seq<u8>, nat),
    terminal_depth: nat,
    key: Seq<u8>,
    path: Seq<(Seq<u8>, nat)>,
    n: nat,
    m: nat,
)
    requires
        n <= m,
        climb(terminal, terminal_depth, key, path, n) is None,
    ensures
        climb(terminal, terminal_depth, key, path, m) is None,
    decreases m,
{
    if n < m {
        climb_stays_failed(terminal, terminal_depth, key, path, n, (m - 1) as nat);
    }
}

/// Recomputes a causal trie root from a terminal node (either a leaf and count
/// 1, or a canonical empty hash and count 0) by applying the siblings of `path`
/// from the level just above the terminal depth up to the root.
///
/// The side (left/right) at each level is derived from the key bit.
fn verify_causal_path(
    terminal_hash: [u8; 32],
    terminal_count: u64,
    terminal_depth: usize,
    key: &[u8; 32],
    path: &[CausalProofStep],
    root: [u8; 32],
    count: u64,
) -> (result: bool)
    requires
        terminal_depth <= 256,
    ensures
        result == climbs_to(
            (terminal_hash@, terminal_count as nat),
            terminal_depth as nat,
            key@,
            step_contents(path@),
            (root@, count as nat),
        ),
{
    if path.len() != terminal_depth {
        return false;
    }
    let ghost terminal = (terminal_hash@, terminal_count as nat);
    let ghost steps = step_contents(path@);
    let mut current_hash: [u8; 32] = terminal_hash;
    let mut current_count: u64 = terminal_count;
    let mut index: usize = 0;
    while index < path.len()
        invariant
            index <= path.len(),
            path@.len() == terminal_depth,
            terminal_depth <= 256,
            terminal == (terminal_hash@, terminal_count as nat),
            steps == step_contents(path@),
            climb(terminal, terminal_depth as nat, key@, steps, index as nat) == Some(
                (current_hash@, current_count as nat),
            ),
        decreases path.len() - index,
    {
        let step: CausalProofStep = path[index];
        let depth: usize = terminal_depth - 1 - index;
        let combined: [u8; 32] = if causal_bit(key, depth) == 0 {
            causal_node(depth as u16, &current_hash, current_count, &step.hash, step.count)
        } else {
            causal_node(depth as u16, &step.hash, step.count, &current_hash, current_count)
        };
        proof {
            assert(steps[index as int] == (step.hash@, step.count as nat));
        }
        match current_count.checked_add(step.count) {
            Some(sum) => {
                current_hash = combined;
                current_count = sum;
            },
            None => {
                proof {
                    climb_stays_failed(
                        terminal,
                        terminal_depth as nat,
                        key@,
                        steps,
                        (index + 1) as nat,
                        terminal_depth as nat,
                    );
                }
                return false;
            },
        }
        index = index + 1;
    }
    same_hash(&current_hash, &root) && current_count == count
}

/// Recomputes a root from `key`'s leaf and `path` (leaf-to-root ordered
/// siblings) and reports whether it matches `root` and `count`.
#[must_use]
pub fn verify_causal_inclusion(
    key: &[u8; 32],
    path: &[CausalProofStep],
    root: [u8; 32],
    count: u64,
) -> (result: bool)
    ensures
        result == climbs_to(
            (causal_leaf_digest(key@), 1),
            256,
            key@,
            step_contents(path@),
            (root@, count as nat),
        ),
{
    verify_causal_path(causal_leaf(key), 1, CAUSAL_DEPTH, key, path, root, count)
}

/// The path and the terminal depth prove that a key is absent: the depth is the
/// least at which the descent is empty, and the path leads to the root.
pub open spec fn absence_proved(
    key: Seq<u8>,
    terminal_depth: nat,
    path: Seq<(Seq<u8>, nat)>,
    root: (Seq<u8>, nat),
) -> bool {
    &&& terminal_depth <= 256
    &&& path.len() > 0 ==> path[0] != (empty_digest(terminal_depth), 0nat)
    &&& climbs_to((empty_digest(terminal_depth), 0), terminal_depth, key, path, root)
}

/// Recomputes a root from the canonical empty hash at `terminal_depth` and
/// `path` (leaf-to-root ordered siblings) and reports whether it matches `root`
/// and `count`.
#[must_use]
pub fn verify_causal_non_inclusion(
    key: &[u8; 32],
    terminal_depth: usize,
    path: &[CausalProofStep],
    root: [u8; 32],
    count: u64,
) -> (result: bool)
    ensures
        result == absence_proved(
            key@,
            terminal_depth as nat,
            step_contents(path@),
            (root@, count as nat),
        ),
{
    if terminal_depth > CAUSAL_DEPTH {
        return false;
    }
    if path.len() != terminal_depth {
        return false;
    }
    let empty: Vec<[u8; 32]> = empty_table();
    // If the sibling at the terminal depth were empty as well, the descent would
    // have stopped a level higher.
    if path.len() > 0 {
        proof {
            assert(step_contents(path@)[0] == (path@[0].hash@, path@[0].count as nat));
        }
        if path[0].count == 0 && same_hash(&path[0].hash, &empty[terminal_depth]) {
            return false;
        }
    }
    verify_causal_path(empty[terminal_depth], 0, terminal_depth, key, path, root, count)
}

/// A climb depends on the steps that it takes alone.
proof fn climb_prefix(
    terminal: (Seq<u8>, nat),
    terminal_depth: nat,
    key: Seq<u8>,
    path: Seq<(Seq<u8>, nat)>,
    step: (Seq<u8>, nat),
    n: nat,
)
    requires
        n <= path.len(),
    ensures
        climb(terminal, terminal_depth, key, path.push(step), n) == climb(
            terminal,
            terminal_depth,
            key,
            path,
            n,
        ),
    decreases n,
{
    if n > 0 {
        climb_prefix(terminal, terminal_depth, key, path, step, (n - 1) as nat);
        assert(path.push(step)[n - 1] == path[n - 1]);
    }
}

/// Climbing back from where the descent along a key ended leads to the subtree
/// that the descent started from.
proof fn descent_climbs(keys: Set<Seq<u8>>, key: Seq<u8>, depth: nat)
    requires
        depth <= 256,
        keys.finite(),
        agreeing(keys, depth),
        keys.len() <= u64::MAX,
    ensures
        end_depth(keys, key, depth) <= 256,
        descent(keys, key, depth).len() == end_depth(keys, key, depth) - depth,
        ({
            let end = end_depth(keys, key, depth);
            let terminal = if end == 256 && subtree_end(keys, key, depth)
                != Set::<Seq<u8>>::empty() {
                subtree(subtree_end(keys, key, depth), 256)
            } else {
                (empty_digest(end), 0nat)
            };
            climb(
                terminal,
                end,
                key,
                descent(keys, key, depth),
                (end - depth) as nat,
            ) == Some(subtree(keys, depth))
        }),
    decreases 256 - depth,
{
    if depth < 256 && keys != Set::<Seq<u8>>::empty() {
        let bit = key_bit(key, depth as int);
        let own = side(keys, depth, bit);
        let other = side(keys, depth, !bit);
        side_agrees(keys, depth, bit);
        side_agrees(keys, depth, !bit);
        vstd::set_lib::lemma_len_subset(own, keys);
        descent_climbs(own, key, depth + 1);
        subtree_count(keys, depth);
        let end = end_depth(own, key, depth + 1);
        let below = descent(own, key, depth + 1);
        let step = subtree(other, depth + 1);
        let terminal = if end == 256 && subtree_end(own, key, depth + 1)
            != Set::<Seq<u8>>::empty() {
            subtree(subtree_end(own, key, depth + 1), 256)
        } else {
            (empty_digest(end), 0nat)
        };
        climb_prefix(terminal, end, key, below, step, (end - depth - 1) as nat);
        assert(below.push(step)[end - depth - 1] == step);
    }
}

/// What is left of the keys where the descent along a key ends.
spec fn subtree_end(keys: Set<Seq<u8>>, key: Seq<u8>, depth: nat) -> Set<Seq<u8>>
    decreases 256 - depth,
{
    if depth >= 256 || keys == Set::<Seq<u8>>::empty() {
        keys
    } else {
        subtree_end(side(keys, depth, key_bit(key, depth as int)), key, depth + 1)
    }
}

/// The descent along a key keeps the key exactly where it is a member.
proof fn end_has_key(keys: Set<Seq<u8>>, key: Seq<u8>, depth: nat)
    requires
        depth <= 256,
        key.len() == 32,
        agreeing(keys, depth),
        forall|k: Seq<u8>, d: int|
            keys.contains(k) && 0 <= d < depth ==> #[trigger] key_bit(k, d) == key_bit(key, d),
    ensures
        keys.contains(key) ==> subtree_end(keys, key, depth) == set![key],
        !keys.contains(key) ==> subtree_end(keys, key, depth) == Set::<Seq<u8>>::empty(),
    decreases 256 - depth,
{
    if depth >= 256 {
        assert forall|k: Seq<u8>| keys.contains(k) implies k == key by {
            super::trie::bits_determine(k, key);
        }
        if keys.contains(key) {
            assert(keys =~= set![key]);
        } else {
            assert(keys =~= Set::<Seq<u8>>::empty());
        }
    } else if keys != Set::<Seq<u8>>::empty() {
        side_agrees(keys, depth, key_bit(key, depth as int));
        end_has_key(side(keys, depth, key_bit(key, depth as int)), key, depth + 1);
    }
}

/// The inclusion proof of a member verifies against the root and the count.
pub proof fn inclusion_verifies(keys: Set<Seq<u8>>, key: Seq<u8>)
    requires
        keys.finite(),
        agreeing(keys, 0),
        keys.len() <= u64::MAX,
        keys.contains(key),
    ensures
        climbs_to(
            (causal_leaf_digest(key), 1),
            256,
            key,
            member_path(keys, key, 0),
            (subtree(keys, 0).0, keys.len()),
        ),
{
    member_descends(keys, key, 0);
    descent_climbs(keys, key, 0);
    end_has_key(keys, key, 0);
    subtree_count(keys, 0);
    let end = subtree_end(keys, key, 0);
    assert(end.contains(key));
    assert(end.contains(end.choose()));
    assert(subtree(end, 256) == (causal_leaf_digest(key), 1nat));
}

/// The siblings at the end of a descent to an empty subtree are not all empty.
proof fn end_sibling(keys: Set<Seq<u8>>, key: Seq<u8>, depth: nat)
    requires
        depth <= 256,
        keys.finite(),
        agreeing(keys, depth),
        subtree_end(keys, key, depth) == Set::<Seq<u8>>::empty(),
    ensures
        descent(keys, key, depth).len() > 0 ==> descent(keys, key, depth)[0].1 > 0,
    decreases 256 - depth,
{
    if depth < 256 && keys != Set::<Seq<u8>>::empty() {
        let bit = key_bit(key, depth as int);
        let own = side(keys, depth, bit);
        let other = side(keys, depth, !bit);
        side_agrees(keys, depth, bit);
        side_agrees(keys, depth, !bit);
        end_sibling(own, key, depth + 1);
        let below = descent(own, key, depth + 1);
        if below.len() == 0 {
            assert(own == Set::<Seq<u8>>::empty()) by {
                if depth + 1 >= 256 {
                    assert(subtree_end(own, key, depth + 1) == own);
                } else if own != Set::<Seq<u8>>::empty() {
                    let next = key_bit(key, (depth + 1) as int);
                    assert(descent(own, key, depth + 1) == descent(
                        side(own, depth + 1, next),
                        key,
                        depth + 2,
                    ).push(subtree(side(own, depth + 1, !next), depth + 2)));
                }
            }
            assert(other =~= keys) by {
                assert forall|k: Seq<u8>| keys.contains(k) implies other.contains(k) by {
                    assert(!own.contains(k));
                }
            }
            subtree_count(other, depth + 1);
            assert(keys.len() > 0) by {
                if keys.len() == 0 {
                    assert(keys =~= Set::<Seq<u8>>::empty());
                }
            }
        } else {
            assert(below.push(subtree(other, depth + 1))[0] == below[0]);
        }
    }
}

/// The non-inclusion proof of a key that is no member verifies against the root
/// and the count.
pub proof fn non_inclusion_verifies(keys: Set<Seq<u8>>, key: Seq<u8>)
    requires
        keys.finite(),
        agreeing(keys, 0),
        keys.len() <= u64::MAX,
        key.len() == 32,
        !keys.contains(key),
    ensures
        absence_proved(
            key,
            end_depth(keys, key, 0),
            descent(keys, key, 0),
            (subtree(keys, 0).0, keys.len()),
        ),
{
    descent_climbs(keys, key, 0);
    end_has_key(keys, key, 0);
    end_sibling(keys, key, 0);
    subtree_count(keys, 0);
}

/// A proof of absence that is stretched by a level, with an empty sibling at its
/// end, is rejected.
pub proof fn stretched_absence_rejected(
    key: Seq<u8>,
    terminal_depth: nat,
    path: Seq<(Seq<u8>, nat)>,
    root: (Seq<u8>, nat),
)
    requires
        terminal_depth < 256,
    ensures
        !absence_proved(
            key,
            terminal_depth + 1,
            seq![(empty_digest(terminal_depth + 1), 0nat)] + path,
            root,
        ),
{
    let stretched = seq![(empty_digest(terminal_depth + 1), 0nat)] + path;
    assert(stretched[0] == (empty_digest(terminal_depth + 1), 0nat));
}

/// The root of a set does not depend on the order of insertions.
pub proof fn insertion_order_irrelevant(keys: Set<Seq<u8>>, a: Seq<u8>, b: Seq<u8>)
    ensures
        subtree(keys.insert(a).insert(b), 0) == subtree(keys.insert(b).insert(a), 0),
{
    assert(keys.insert(a).insert(b) =~= keys.insert(b).insert(a));
}

/// Subtrees with the same keys at the same depth are the same.
proof fn same_keys_same_trie(a: CausalTrie, b: CausalTrie, depth: nat)
    requires
        trie_wf(a, depth),
        trie_wf(b, depth),
        trie_keys(a) == trie_keys(b),
    ensures
        a == b,
    decreases a,
{
    let keys = trie_keys(a);
    match (a, b) {
        (CausalTrie::Leaf { key, hash }, CausalTrie::Leaf { key: other, hash: other_hash }) => {
            assert(keys.contains(key@) && keys.contains(other@));
            assert(key =~= other);
            assert(hash =~= other_hash);
        },
        (
            CausalTrie::Branch { hash, count, left, right },
            CausalTrie::Branch {
                hash: other_hash,
                count: other_count,
                left: other_left,
                right: other_right,
            },
        ) => {
            assert(hash =~= other_hash);
            same_keys_same_node(left, other_left, depth + 1);
            same_keys_same_node(right, other_right, depth + 1);
        },
        _ => {},
    }
}

proof fn same_keys_same_node(
    a: Option<Box<CausalTrie>>,
    b: Option<Box<CausalTrie>>,
    depth: nat,
)
    requires
        node_wf(a, depth),
        node_wf(b, depth),
        node_keys(a) == node_keys(b),
    ensures
        a == b,
    decreases a,
{
    if let (Some(left), Some(right)) = (a, b) {
        same_keys_same_trie(*left, *right, depth);
    }
}

/// Sets with the same keys are equal, whatever their history.
pub proof fn same_keys_same_set(a: CausalSet, b: CausalSet)
    requires
        a.wf(),
        b.wf(),
        a@ == b@,
    ensures
        a == b,
{
    same_keys_same_node(a.trie, b.trie, 0);
}

/// The counts of a path, added up.
pub open spec fn path_count(path: Seq<(Seq<u8>, nat)>) -> nat
    decreases path.len(),
{
    if path.len() == 0 {
        0
    } else {
        path_count(path.drop_last()) + path.last().1
    }
}

proof fn member_path_counts(keys: Set<Seq<u8>>, key: Seq<u8>, depth: nat)
    requires
        depth <= 256,
        keys.finite(),
        agreeing(keys, depth),
        keys.contains(key),
    ensures
        member_path(keys, key, depth).len() == 256 - depth,
        path_count(member_path(keys, key, depth)) + 1 == keys.len(),
    decreases 256 - depth,
{
    if depth >= 256 {
        assert(keys =~= set![key]) by {
            assert forall|k: Seq<u8>| keys.contains(k) implies k == key by {
                agreeing_single(keys, k, key);
            }
        }
    } else {
        let bit = key_bit(key, depth as int);
        let own = side(keys, depth, bit);
        let other = side(keys, depth, !bit);
        side_agrees(keys, depth, bit);
        side_agrees(keys, depth, !bit);
        member_path_counts(own, key, depth + 1);
        subtree_count(other, depth + 1);
        let below = member_path(own, key, depth + 1);
        assert(member_path(keys, key, depth).drop_last() =~= below);
        assert(keys =~= own + other);
        vstd::set_lib::lemma_set_disjoint_lens(own, other);
    }
}

/// The proof that a key is a member has a step for each of the 256 levels, and the
/// counts of its steps, with the key itself, add up to the count of the set.
pub proof fn inclusion_path_counts(keys: Set<Seq<u8>>, key: Seq<u8>)
    requires
        keys.finite(),
        agreeing(keys, 0),
        keys.contains(key),
    ensures
        member_path(keys, key, 0).len() == CAUSAL_DEPTH,
        path_count(member_path(keys, key, 0)) + 1 == keys.len(),
{
    member_path_counts(keys, key, 0);
}

} // verus!
