use rezzy::reconcile::pinsketch::{
    decode, factor_trial_cost, find_roots, find_roots_with_budget, gf64_inv, poly_div, poly_gcd,
    poly_mod, poly_square, trace_mod, MAX_FACTOR_WORK,
};
use rezzy::reconcile::quadratic::solve_quadratic_form;
use rezzy::reconcile::{gf64_mul, AlgebraicError};

#[test]
fn inverses_roundtrip() {
    for value in [1, 2, 3, 0xdead_beef, u64::MAX] {
        assert_eq!(gf64_mul(value, gf64_inv(value).unwrap()), 1);
    }
}

#[test]
fn decodes_small_sets() {
    for expected in [vec![1], vec![1, 2], vec![1, 2, 3], vec![1, 2, 3, 4]] {
        let mut odd = vec![0; expected.len()];
        for value in &expected {
            let squared = gf64_mul(*value, *value);
            let mut power = *value;
            for syndrome in &mut odd {
                *syndrome ^= power;
                power = gf64_mul(power, squared);
            }
        }
        assert_eq!(decode(&odd, expected.len()), Ok(expected));
    }
}

#[test]
fn factors_a_quadratic() {
    let mut roots = Vec::new();
    find_roots(vec![gf64_mul(1, 2), 1 ^ 2, 1], &mut roots).unwrap();
    roots.sort_unstable();
    assert_eq!(roots, [1, 2]);
}

#[test]
fn decodes_deterministic_varied_sets() {
    let mut state = 0x6a09_e667_f3bc_c909_u64;
    for size in (1..=24).chain([32, 64]) {
        let mut expected = Vec::new();
        while expected.len() < size {
            state ^= state << 13;
            state ^= state >> 7;
            state ^= state << 17;
            if state != 0 && !expected.contains(&state) {
                expected.push(state);
            }
        }
        expected.sort_unstable();
        let mut odd = vec![0; size];
        for value in &expected {
            let squared = gf64_mul(*value, *value);
            let mut power = *value;
            for syndrome in &mut odd {
                *syndrome ^= power;
                power = gf64_mul(power, squared);
            }
        }
        assert_eq!(decode(&odd, size), Ok(expected));
    }
}

#[test]
fn decodes_a_triple_unsplit_by_the_mixed_parameter_prefix() {
    let expected = vec![1, 0xcd2, 0x1_d71a];
    let mut odd = vec![0; expected.len()];
    for value in &expected {
        let squared = gf64_mul(*value, *value);
        let mut power = *value;
        for syndrome in &mut odd {
            *syndrome ^= power;
            power = gf64_mul(power, squared);
        }
    }
    assert_eq!(decode(&odd, expected.len()), Ok(expected));
}

#[test]
fn empty_sketch_decodes_to_empty_set() {
    assert_eq!(decode(&[0; 4], 4), Ok(Vec::new()));
}

#[test]
fn polynomial_helpers_reject_invalid_inputs() {
    assert_eq!(gf64_inv(0), None);

    let mut value = vec![1, 2, 3];
    assert_eq!(poly_mod(&[1, 2], &mut value), None);
    assert_eq!(poly_div(vec![1], &[1, 1]), None);
    assert_eq!(poly_div(vec![1, 2], &[1, 2]), None);
    assert_eq!(poly_div(vec![2, 3, 1], &[1, 1]), Some(vec![2, 1]));
    assert_eq!(poly_div(vec![0, 1, 1], &[1, 1]), Some(vec![0, 1]));

    let mut empty = Vec::new();
    poly_square(&mut empty).unwrap();
    assert!(empty.is_empty());
}

#[test]
fn gcd_swaps_lower_degree_left_operand() {
    assert_eq!(poly_gcd(vec![1, 1], vec![1, 0, 1]), Some(vec![1, 1]));
}

#[test]
fn trace_handles_constant_modulus() {
    assert_eq!(trace_mod(&[1], 1), Some(Vec::new()));
}

#[test]
fn root_finding_handles_constant_and_inseparable_polynomials() {
    let mut roots = Vec::new();
    find_roots(vec![1], &mut roots).unwrap();
    assert!(roots.is_empty());
    assert_eq!(
        find_roots(vec![1, 0, 1], &mut roots),
        Err(AlgebraicError::DecodeFailure)
    );
    assert_eq!(
        find_roots(vec![1, 1, 0, 1], &mut roots),
        Err(AlgebraicError::DecodeFailure)
    );
}

#[test]
fn root_finding_stops_when_its_work_budget_is_exhausted() {
    let pair_products = gf64_mul(1, 2) ^ gf64_mul(1, 3) ^ gf64_mul(2, 3);
    let polynomial = vec![gf64_mul(gf64_mul(1, 2), 3), pair_products, 0, 1];
    let mut roots = Vec::new();
    assert_eq!(
        find_roots_with_budget(polynomial, &mut roots, &mut 0),
        Err(AlgebraicError::BudgetExhausted)
    );
    assert!(roots.is_empty());
}

#[test]
fn maximum_degree_trace_exceeds_the_absolute_work_budget() {
    assert!(factor_trial_cost(1_000).unwrap() > MAX_FACTOR_WORK);
}

#[test]
fn quadratic_solver_rejects_an_inconsistent_target() {
    let target = (0..64)
        .map(|bit| 1_u64 << bit)
        .find(|target| {
            let mut trace = *target;
            let mut power = *target;
            for _ in 1..64 {
                power = gf64_mul(power, power);
                trace ^= power;
            }
            trace == 1
        })
        .expect("the absolute trace is a nonzero linear map");
    assert_eq!(solve_quadratic_form(target), None);
}

#[test]
fn coordinates_of_no_small_set_fail_without_exhausting_the_budget() {
    // Two elements that cancel cannot have cubes that do not.
    assert_eq!(decode(&[0, 5], 2), Err(AlgebraicError::DecodeFailure));
    // One element does not have another one's cube.
    assert_eq!(decode(&[1, 2], 1), Err(AlgebraicError::DecodeFailure));
    // Decoding the same coordinates again gives the same result.
    let mixed = [0x0123_4567_89ab_cdef, 0xfedc_ba98_7654_3210, 0x55, 0xaa];
    assert_eq!(decode(&mixed, 4), decode(&mixed, 4));
}
