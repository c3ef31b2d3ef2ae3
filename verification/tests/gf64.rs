use rezzy::reconcile::gf64::{mul, mul_bitwise};

#[test]
fn reduction_sensitive_vectors_match_minisketch() {
    assert_eq!(mul(0, u64::MAX), 0);
    assert_eq!(mul(1, u64::MAX), u64::MAX);
    assert_eq!(mul(0x1b, 0x1b), 0x145);
    assert_eq!(mul(u64::MAX, u64::MAX), 0x5555_5555_5555_5513);
    assert_eq!(mul(1_u64 << 63, 1_u64 << 63), 0xc000_0000_0000_005a);
}

#[test]
fn multiplication_is_distributive() {
    let mut state = 0x6a09_e667_f3bc_c909_u64;
    for _ in 0..256 {
        state ^= state << 13;
        state ^= state >> 7;
        state ^= state << 17;
        let left = state;
        state = state.rotate_left(23) ^ 0x9e37_79b9_7f4a_7c15;
        let right = state;
        state = state.rotate_right(11) ^ 0x3c6e_f372_fe94_f82b;
        let addend = state;
        assert_eq!(
            mul(left, right ^ addend),
            mul(left, right) ^ mul(left, addend)
        );
    }
}

#[test]
fn mul_bitwise_matches_mul() {
    let mut state = 0x6a09_e667_f3bc_c909_u64;
    for _ in 0..256 {
        state ^= state << 13;
        state ^= state >> 7;
        state ^= state << 17;
        let left = state;
        state = state.rotate_left(23) ^ 0x9e37_79b9_7f4a_7c15;
        let right = state;
        assert_eq!(mul_bitwise(left, right), mul(left, right));
    }
}
