use rezzy::reconcile::gf64::mul;
use rezzy::reconcile::gf64_simd::{
    get_evaluator, Avx512Evaluator, CpuFeatures, EvaluatorBackend, Gf64Evaluator, ScalarEvaluator,
    SseEvaluator,
};

#[test]
fn evaluators_agree() {
    let source: Vec<u64> = (1..20).map(|i: u64| i.wrapping_mul(0x9e37_79b9_7f4a_7c15)).collect();
    let start: Vec<u64> = (1..20).map(|i: u64| i << 40).collect();
    let term = 0xdead_beef_1234_5678;
    let expected: Vec<u64> = source
        .iter()
        .zip(&start)
        .map(|(value, sum)| sum ^ mul(term, *value))
        .collect();
    let mut scalar = start.clone();
    ScalarEvaluator::poly_mac(term, &source, &mut scalar);
    assert_eq!(scalar, expected);
    let mut sse = start.clone();
    SseEvaluator::poly_mac(term, &source, &mut sse);
    assert_eq!(sse, expected);
    let mut wide = start;
    Avx512Evaluator::poly_mac(term, &source, &mut wide);
    assert_eq!(wide, expected);
}

#[test]
fn features_choose_the_evaluator() {
    let none = CpuFeatures {
        avx512f: false,
        avx512bw: false,
        vpclmulqdq: false,
        pclmulqdq: false,
    };
    assert_eq!(get_evaluator(none), EvaluatorBackend::Scalar);
    let narrow = CpuFeatures { pclmulqdq: true, ..none };
    assert_eq!(get_evaluator(narrow), EvaluatorBackend::Sse);
    let wide = CpuFeatures { avx512f: true, avx512bw: true, vpclmulqdq: true, ..none };
    assert_eq!(get_evaluator(wide), EvaluatorBackend::Avx512);
    let partial = CpuFeatures { avx512f: true, pclmulqdq: true, ..none };
    assert_eq!(get_evaluator(partial), EvaluatorBackend::Sse);
}
