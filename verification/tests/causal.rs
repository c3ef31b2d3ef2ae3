use rezzy::merkle::causal::{
    verify_causal_inclusion, verify_causal_non_inclusion, CausalProofStep, CausalSet, CAUSAL_DEPTH,
};
use rezzy::merkle::trie::{causal_bit, causal_leaf, causal_node, empty_table};

#[derive(Debug, PartialEq, Eq)]
enum TerminalKind {
    Leaf,
    Empty,
}

/// The root and the count of a key set, which may be empty.
fn subtree_root_or_empty(keys: &[[u8; 32]], depth: usize) -> ([u8; 32], u64) {
    subtree_or_empty(keys, depth, &empty_table())
}

/// `subtree_root`, generalized to accept an empty key set.
fn subtree_or_empty(keys: &[[u8; 32]], depth: usize, empty: &[[u8; 32]]) -> ([u8; 32], u64) {
    if keys.is_empty() {
        (empty[depth], 0)
    } else {
        subtree_root(keys, depth, empty)
    }
}

/// Splits `keys` into (left, right) by their bit at `depth`, matching
/// [`causal_bit`]'s MSB-first convention.
fn partition_by_bit(keys: &[[u8; 32]], depth: usize) -> (Vec<[u8; 32]>, Vec<[u8; 32]>) {
    let mut left = Vec::new();
    let mut right = Vec::new();
    for k in keys {
        if causal_bit(k, depth) == 0 {
            left.push(*k);
        } else {
            right.push(*k);
        }
    }
    (left, right)
}

/// Independent recursive computation of the causal trie root for a
/// given key set. Used as a differential oracle against the
/// incremental node-cache implementation.
fn subtree_root(keys: &[[u8; 32]], depth: usize, empty: &[[u8; 32]]) -> ([u8; 32], u64) {
    if depth == CAUSAL_DEPTH {
        return (causal_leaf(&keys[0]), 1);
    }
    let (left, right) = partition_by_bit(keys, depth);
    let next_depth = depth.saturating_add(1);
    let (left_hash, left_count) = subtree_or_empty(&left, next_depth, empty);
    let (right_hash, right_count) = subtree_or_empty(&right, next_depth, empty);
    (
        causal_node(
            depth as u16,
            &left_hash,
            left_count,
            &right_hash,
            right_count,
        ),
        left_count + right_count,
    )
}

/// Sets bit `bit` (MSB-first, matching [`causal_bit`]) in `prefix`.
fn set_bit(prefix: &mut [u8; 32], bit: usize) {
    prefix[bit / 8] |= 1 << (7_usize.wrapping_sub(bit % 8));
}

/// Clears bit `bit` (MSB-first, matching [`causal_bit`]) in `prefix`.
fn clear_bit(prefix: &mut [u8; 32], bit: usize) {
    prefix[bit / 8] &= !(1 << (7_usize.wrapping_sub(bit % 8)));
}

/// Memoized causal-trie oracle: every non-empty subtree over some keys, by depth
/// and prefix.
struct CausalOracle {
    nodes: std::collections::HashMap<(u16, [u8; 32]), ([u8; 32], u64)>,
}

impl CausalOracle {
    /// Builds the memoized subtree table for `keys`.
    fn new(keys: &[[u8; 32]]) -> Self {
        let mut nodes = std::collections::HashMap::new();
        let empty = empty_table();
        Self::build(&mut nodes, keys, 0, [0u8; 32], &empty);
        Self { nodes }
    }

    fn build(
        nodes: &mut std::collections::HashMap<(u16, [u8; 32]), ([u8; 32], u64)>,
        keys: &[[u8; 32]],
        depth: usize,
        prefix: [u8; 32],
        empty: &[[u8; 32]],
    ) {
        let Some(first) = keys.first() else {
            return;
        };
        if depth == CAUSAL_DEPTH {
            nodes.insert((depth as u16, prefix), (causal_leaf(first), 1));
            return;
        }
        let (left, right) = partition_by_bit(keys, depth);
        let next_depth = depth.saturating_add(1);
        let mut left_prefix = prefix;
        let mut right_prefix = prefix;
        clear_bit(&mut left_prefix, depth);
        set_bit(&mut right_prefix, depth);
        Self::build(nodes, &left, next_depth, left_prefix, empty);
        Self::build(nodes, &right, next_depth, right_prefix, empty);
        let (left_hash, left_count) = nodes
            .get(&(next_depth as u16, left_prefix))
            .copied()
            .unwrap_or((empty[next_depth], 0));
        let (right_hash, right_count) = nodes
            .get(&(next_depth as u16, right_prefix))
            .copied()
            .unwrap_or((empty[next_depth], 0));
        nodes.insert(
            (depth as u16, prefix),
            (
                causal_node(
                    depth as u16,
                    &left_hash,
                    left_count,
                    &right_hash,
                    right_count,
                ),
                left_count + right_count,
            ),
        );
    }

    /// Root (`hash`, `count`) of the whole key set — the node at
    /// depth 0, or the canonical empty root.
    fn root(&self) -> ([u8; 32], u64) {
        self.nodes
            .get(&(0, [0u8; 32]))
            .copied()
            .unwrap_or((empty_table()[0], 0))
    }

    /// The root (`hash`, `count`) of the whole key set, plus the
    /// leaf-to-root sibling path along `target`'s bit-directed
    /// descent. A member ends in [`TerminalKind::Leaf`] at
    /// [`CAUSAL_DEPTH`]; a non-member ends in [`TerminalKind::Empty`]
    /// at the first depth whose target-directed subtree is empty.
    fn descend(
        &self,
        target: &[u8; 32],
    ) -> ([u8; 32], u64, Vec<CausalProofStep>, TerminalKind, usize) {
        let empty = empty_table();
        let mut path = Vec::with_capacity(CAUSAL_DEPTH);
        let mut prefix = [0u8; 32];
        let mut depth = 0;
        let (kind, term_depth) = loop {
            if !self.nodes.contains_key(&(depth as u16, prefix)) {
                break (TerminalKind::Empty, depth);
            }
            if depth == CAUSAL_DEPTH {
                break (TerminalKind::Leaf, depth);
            }
            let next_depth = depth.saturating_add(1);
            let mut sibling_prefix = prefix;
            if causal_bit(target, depth) == 0 {
                set_bit(&mut sibling_prefix, depth);
                clear_bit(&mut prefix, depth);
            } else {
                clear_bit(&mut sibling_prefix, depth);
                set_bit(&mut prefix, depth);
            }
            let (sibling_hash, sibling_count) = self
                .nodes
                .get(&(next_depth as u16, sibling_prefix))
                .copied()
                .unwrap_or((empty[next_depth], 0));
            path.push(CausalProofStep {
                hash: sibling_hash,
                count: sibling_count,
            });
            depth = next_depth;
        };
        path.reverse();
        let (root_hash, root_count) = self.root();
        (root_hash, root_count, path, kind, term_depth)
    }
}


/// A key with exactly one bit set, at bit index `bit` (MSB-first,
/// matching [`causal_bit`]).
fn bit_key(bit: usize) -> [u8; 32] {
    let mut k = [0u8; 32];
    k[bit / 8] |= 1 << (7_usize.wrapping_sub(bit % 8));
    k
}

/// Deterministic xorshift64 keys, with every byte populated.
fn dense_keys(seed: u64, count: usize) -> Vec<[u8; 32]> {
    let mut state = seed;
    let mut keys = Vec::with_capacity(count);
    for _ in 0..count {
        let mut k = [0u8; 32];
        for chunk in k.chunks_mut(8) {
            state ^= state << 13;
            state ^= state >> 7;
            state ^= state << 17;
            chunk.copy_from_slice(&state.to_le_bytes());
        }
        keys.push(k);
    }
    keys
}

/// Asserts `set` and `oracle` agree with each other and with
/// `(ref_root, ref_count)`, then cross-checks every inclusion proof
/// in `keys` between the two. `label` is appended to failure
/// messages to disambiguate which test/iteration failed.
fn assert_matches_oracle(
    set: &CausalSet,
    oracle: &CausalOracle,
    ref_root: [u8; 32],
    ref_count: u64,
    keys: &[[u8; 32]],
    label: &str,
) {
    assert_eq!(set.root(), ref_root, "root diverges{label}");
    assert_eq!(set.count(), ref_count, "count diverges{label}");
    assert_eq!(
        oracle.root(),
        (ref_root, ref_count),
        "oracle root diverges{label}"
    );

    for k in keys {
        let (path, root, count) = set.inclusion_proof(k).expect("key is a member");
        let (oracle_hash, oracle_count, oracle_path, kind, term_depth) = oracle.descend(k);
        assert!(matches!(kind, TerminalKind::Leaf));
        assert_eq!(term_depth, CAUSAL_DEPTH);
        assert_eq!(oracle_hash, root, "inclusion hash diverges{label}");
        assert_eq!(oracle_count, count, "inclusion count diverges{label}");
        assert_eq!(oracle_path, path, "inclusion path diverges{label}");
        assert!(verify_causal_inclusion(k, &path, root, count));
    }
}

/// Asserts a non-inclusion proof for `absent` against `set` matches
/// `oracle`'s descent. `label` is appended to failure messages.
fn assert_non_inclusion_matches_oracle(
    set: &CausalSet,
    oracle: &CausalOracle,
    absent: &[u8; 32],
    label: &str,
) {
    let (oracle_hash, oracle_count, oracle_path, kind, term_depth) = oracle.descend(absent);
    assert!(matches!(kind, TerminalKind::Empty));
    let (path, depth, root, count) = set
        .non_inclusion_proof(absent)
        .expect("key is not a member");
    assert_eq!(depth, term_depth);
    assert_eq!(oracle_hash, root);
    assert_eq!(oracle_count, count);
    assert_eq!(oracle_path, path, "non-inclusion path diverges{label}");
    assert!(verify_causal_non_inclusion(
        absent, depth, &path, root, count
    ));
}

/// Cross-checks roots and proofs against the recursive oracle for keys that
/// differ only at the byte-boundary bits (7/8, 15/16) and the final bit (255).
#[test]
fn differential_root_and_proofs_at_boundary_bits() {
    let bits = [7_usize, 8, 15, 16, 255];
    let keys: Vec<[u8; 32]> = bits.iter().copied().map(bit_key).collect();

    let mut set = CausalSet::empty();
    for &k in &keys {
        set.insert_mut(k);
    }
    let oracle = CausalOracle::new(&keys);

    let (ref_root, ref_count) = subtree_root_or_empty(&keys, 0);
    assert_matches_oracle(&set, &oracle, ref_root, ref_count, &keys, "");

    // Bit 47 is absent from the member set: it must terminate in an empty
    // subtree whose depth and path match the oracle exactly.
    let absent = bit_key(47);
    assert_non_inclusion_matches_oracle(&set, &oracle, &absent, "");
}

/// A non-member that diverges from every member only in the final bit (255)
/// must terminate as [`TerminalKind::Empty`] at [`CAUSAL_DEPTH`].
#[test]
fn oracle_non_member_diverging_only_in_final_bit() {
    // Member = bit_key(0); absent = same key with bit 255 flipped,
    // so it shares bits 0..254 with the member and diverges only at
    // the very last bit.
    let member = bit_key(0);
    let mut absent = member;
    absent[31] |= 0x01; // bit 255 (byte 31, MSB-first, LSB).
    assert_ne!(absent, member);

    let oracle = CausalOracle::new(&[member]);
    let (root_hash, root_count, path, kind, term_depth) = oracle.descend(&absent);

    assert_eq!(kind, TerminalKind::Empty, "must terminate Empty, not Leaf");
    assert_eq!(term_depth, CAUSAL_DEPTH);
    assert_eq!((root_hash, root_count), oracle.root());
    assert_eq!(path.len(), CAUSAL_DEPTH);
    // Deepest sibling (pushed last, reversed to first) is the
    // member's leaf at depth 256.
    let first = path.first().expect("full-depth path");
    assert_eq!(first.count, 1);
    assert_eq!(first.hash, causal_leaf(&member));

    // Cross-check the incremental cache reaches the same
    // terminal depth and path.
    let mut set = CausalSet::empty();
    set.insert_mut(member);
    let (prod_path, prod_depth, prod_root, prod_count) = set
        .non_inclusion_proof(&absent)
        .expect("absent key is not a member");
    assert_eq!(prod_depth, term_depth);
    assert_eq!((prod_root, prod_count), oracle.root());
    assert_eq!(prod_path, path);
}

/// Dense pseudorandom keys, for one, two and many members.
#[test]
fn differential_root_and_proofs_dense_random() {
    for &n in &[1, 2, 32, 64] {
        let keys = dense_keys(0xDEAD_BEEF_CAFE_1234, n);
        let oracle = CausalOracle::new(&keys);

        let mut set = CausalSet::empty();
        for &k in &keys {
            set.insert_mut(k);
        }

        let (ref_root, ref_count) = subtree_root_or_empty(&keys, 0);
        let label = format!(" at n={n}");
        assert_matches_oracle(&set, &oracle, ref_root, ref_count, &keys, &label);

        // Non-inclusion: pick a key not in the set.
        let absent = dense_keys(0xBEEF_CAFE_1234_DEAD, 1)[0];
        assert_non_inclusion_matches_oracle(&set, &oracle, &absent, &label);
    }
}

/// The oracle takes a flat key slice, so this also confirms that roots and
/// proofs do not depend on the order keys were inserted in.
#[test]
fn differential_root_is_order_independent() {
    let bits = [7_usize, 8, 15, 16, 255];
    let bit_keys: Vec<[u8; 32]> = bits.iter().copied().map(bit_key).collect();
    let dense = dense_keys(0xCAFE_1234_DEAD_BEEF, 48);

    for (label, keys) in
        [("bit", &bit_keys as &[[u8; 32]]), ("dense", &dense as &[[u8; 32]])]
    {
        let mut forward = CausalSet::empty();
        for &k in keys {
            forward.insert_mut(k);
        }
        let mut reverse = CausalSet::empty();
        for &k in keys.iter().rev() {
            reverse.insert_mut(k);
        }

        let (ref_root, ref_count) = subtree_root_or_empty(keys, 0);
        assert_eq!(forward.root(), ref_root);
        assert_eq!(reverse.root(), ref_root);
        assert_eq!(forward.count(), ref_count);
        assert_eq!(reverse.count(), ref_count);

        // Compare inclusion proofs under both orderings.
        for &k in keys {
            let (f_path, f_root, f_count) = forward.inclusion_proof(&k).unwrap();
            let (r_path, r_root, r_count) = reverse.inclusion_proof(&k).unwrap();
            assert_eq!(f_root, r_root, "{label}: inclusion root diverges");
            assert_eq!(f_count, r_count, "{label}: inclusion count diverges");
            assert_eq!(f_path, r_path, "{label}: inclusion path diverges");
        }

        // Compare non-inclusion proofs.
        let absent = dense_keys(0xBEEF_CAFE_1234_DEAD, 1)[0];
        let (f_path, f_depth, f_root, f_count) =
            forward.non_inclusion_proof(&absent).unwrap();
        let (r_path, r_depth, r_root, r_count) =
            reverse.non_inclusion_proof(&absent).unwrap();
        assert_eq!(f_root, r_root, "{label}: non-inclusion root diverges");
        assert_eq!(f_count, r_count, "{label}: non-inclusion count diverges");
        assert_eq!(f_depth, r_depth, "{label}: non-inclusion depth diverges");
        assert_eq!(f_path, r_path, "{label}: non-inclusion path diverges");
    }
}

/// Differential test for `CausalSet::union`: split a dense key set
/// into halves, build each half with `insert_mut`, then merge with
/// `union` and verify the result matches the oracle for the full set.
#[test]
fn differential_union_matches_oracle() {
    let keys = dense_keys(0xFACE_4321_BEEF_0000, 48);
    let (left, right) = keys.split_at(24);

    let mut a = CausalSet::empty();
    for &k in left {
        a.insert_mut(k);
    }
    let mut b = CausalSet::empty();
    for &k in right {
        b.insert_mut(k);
    }

    let merged = a.union(&b);
    let (ref_root, ref_count) = subtree_root_or_empty(&keys, 0);
    assert_eq!(merged.root(), ref_root, "union root diverges");
    assert_eq!(merged.count(), ref_count, "union count diverges");

    for &k in &keys {
        let (path, root, count) =
            merged.inclusion_proof(&k).expect("key is a member");
        assert!(verify_causal_inclusion(&k, &path, root, count));
    }

    let absent = dense_keys(0x0000_BEEF_4321_FACE, 1)[0];
    let (path, depth, root, count) =
        merged.non_inclusion_proof(&absent).expect("key absent");
    assert!(verify_causal_non_inclusion(
        &absent, depth, &path, root, count
    ));
}

/// Differential test for `CausalSet::extend`: build a set from one
/// half, extend with the other, and verify root/count/proofs against
/// the oracle for the full key set.
#[test]
fn differential_extend_matches_oracle() {
    let keys = dense_keys(0x1234_5678_9ABC_DEF0, 48);
    let (left, right) = keys.split_at(24);

    let mut set = CausalSet::empty();
    for &k in left {
        set.insert_mut(k);
    }
    set.extend(right);

    let (ref_root, ref_count) = subtree_root_or_empty(&keys, 0);
    assert_eq!(set.root(), ref_root, "extend root diverges");
    assert_eq!(set.count(), ref_count, "extend count diverges");

    for &k in &keys {
        let (path, root, count) = set.inclusion_proof(&k).expect("key is a member");
        assert!(verify_causal_inclusion(&k, &path, root, count));
    }

    let absent = dense_keys(0xFEDC_BA98_7654_3210, 1)[0];
    let (path, depth, root, count) =
        set.non_inclusion_proof(&absent).expect("key absent");
    assert!(verify_causal_non_inclusion(
        &absent, depth, &path, root, count
    ));
}

/// An empty sibling in front and a terminal depth one greater fold to the same
/// root; such a stretched proof must be rejected.
#[test]
fn non_minimal_terminal_depth_is_rejected() {
    let (a, b) = (bit_key(7), bit_key(8));
    let absent = bit_key(47);
    let mut set = CausalSet::empty();
    set.insert_mut(a);
    set.insert_mut(b);

    let (path, t, root, count) = set.non_inclusion_proof(&absent).unwrap();
    assert!(verify_causal_non_inclusion(&absent, t, &path, root, count));

    let mut extended = vec![CausalProofStep {
        hash: empty_table()[t + 1],
        count: 0,
    }];
    extended.extend_from_slice(&path);
    assert!(!verify_causal_non_inclusion(
        &absent,
        t + 1,
        &extended,
        root,
        count
    ));
}

#[test]
fn sets_with_the_same_keys_are_equal_and_their_paths_count_them() {
    let keys = dense_keys(41, 30);
    let mut forward = CausalSet::empty();
    for key in &keys {
        forward.insert_mut(*key);
    }
    let mut backward = CausalSet::empty();
    for key in keys.iter().rev() {
        backward.insert_mut(*key);
        backward.insert_mut(*key);
    }
    assert_eq!(forward, backward);

    for key in &keys {
        let (path, _, count) = forward.inclusion_proof(key).unwrap();
        assert_eq!(path.len(), CAUSAL_DEPTH);
        let siblings: u64 = path.iter().map(|step| step.count).sum();
        assert_eq!(siblings + 1, count);
    }
}
