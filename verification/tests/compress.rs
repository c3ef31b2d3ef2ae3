use rezzy::merkle::causal::{
    compress_causal_path, decompress_causal_path, empty_root, verify_causal_inclusion_compressed,
    verify_causal_non_inclusion_compressed, CausalProofError, CausalProofStep, CausalSet,
    CompressedCausalStep,
};
use rezzy::merkle::trie::{causal_leaf, causal_node, empty_table};

fn set() -> CausalSet {
    let mut set = CausalSet::empty();
    set.extend(&[[1; 32], [2; 32], [0x81; 32]]);
    set
}

#[test]
fn paths_shrink_and_grow_back() {
    let set = set();
    let (path, root, count) = set.inclusion_proof(&[2; 32]).unwrap();
    let packed = compress_causal_path(256, &path);
    assert!(packed.len() < 8);
    assert_eq!(decompress_causal_path(256, &packed), Ok(path));
    assert_eq!(
        verify_causal_inclusion_compressed(&[2; 32], &packed, root, count),
        Ok(true)
    );
    assert_eq!(
        verify_causal_inclusion_compressed(&[3; 32], &packed, root, count),
        Ok(false)
    );
    let (path, depth, root, count) = set.non_inclusion_proof(&[3; 32]).unwrap();
    let packed = compress_causal_path(depth, &path);
    assert_eq!(
        verify_causal_non_inclusion_compressed(&[3; 32], depth, &packed, root, count),
        Ok(true)
    );
}

#[test]
fn sets_know_their_members() {
    let set = set();
    assert_eq!(set.count(), 3);
    assert!(set.contains(&[1; 32]));
    assert!(!set.contains(&[3; 32]));
    assert!(set.inclusion_proof(&[3; 32]).is_none());
    assert!(set.non_inclusion_proof(&[1; 32]).is_none());
    assert_eq!(set.insert([1; 32]).root(), set.root());
    assert_eq!(set.unsigned_root().into_inner(), set.root());
    assert_eq!(CausalSet::empty().root(), empty_root());
    assert_eq!(empty_root(), empty_table()[0]);
}

#[test]
fn the_root_of_one_member_folds_its_leaf() {
    let key = [0u8; 32];
    let empty = empty_table();
    let mut hash = causal_leaf(&key);
    for depth in (0..256).rev() {
        hash = causal_node(depth as u16, &hash, 1, &empty[depth + 1], 0);
    }
    assert_eq!(CausalSet::empty().insert(key).root(), hash);
}

fn step() -> CompressedCausalStep {
    CompressedCausalStep::Step(CausalProofStep { hash: [9; 32], count: 1 })
}

fn run(start_depth: u16, length: u16) -> CompressedCausalStep {
    CompressedCausalStep::EmptyRun { start_depth, length }
}

#[test]
fn malformed_paths_are_told_apart() {
    assert_eq!(
        decompress_causal_path(257, &[]),
        Err(CausalProofError::InvalidDepth(257))
    );
    assert_eq!(
        decompress_causal_path(2, &[run(0, 1)]),
        Err(CausalProofError::InvalidDepth(0))
    );
    assert_eq!(
        decompress_causal_path(2, &[step()]),
        Err(CausalProofError::PathLengthMismatch { decompressed: 1, expected: 2 })
    );
    assert_eq!(
        decompress_causal_path(2, &[run(2, 0)]),
        Err(CausalProofError::Truncated)
    );
    assert_eq!(
        decompress_causal_path(1, &[step(), step()]),
        Err(CausalProofError::ExcessData)
    );
    assert_eq!(
        decompress_causal_path(2, &[run(2, 3)]),
        Err(CausalProofError::RunBelowRoot)
    );
    assert_eq!(
        decompress_causal_path(2, &[run(1, 1)]),
        Err(CausalProofError::NonContiguousRun { expected_sibling_depth: 2, actual_start: 1 })
    );
    assert_eq!(
        decompress_causal_path(2, &[run(2, 1), run(1, 1)]),
        Err(CausalProofError::NonMaximalRun)
    );
    let empty = CausalProofStep { hash: empty_table()[1], count: 0 };
    assert_eq!(
        decompress_causal_path(1, &[CompressedCausalStep::Step(empty)]),
        Err(CausalProofError::NonCanonicalStep)
    );
    assert_eq!(
        CausalProofError::InvalidDepth(257).message(),
        "causal proof: invalid depth 257"
    );
}
