//! Multiply-accumulate over vectors of field elements.

use vstd::prelude::*;
use super::field::product;
use super::algebraic::gf64_mul;

verus! {

/// Each target element plus the term times the source element.
pub open spec fn multiplied(term: u64, source: Seq<u64>, target: Seq<u64>) -> Seq<u64> {
    Seq::new(target.len(), |i: int| target[i] ^ product(term, source[i]))
}

/// Multiplies a constant into vectors of field elements.
pub trait Gf64Evaluator {
    /// Multiplies a constant `term` by all coefficients in `source`,
    /// and XOR-adds the results into the corresponding positions in `target`.
    /// `source` and `target` must have the same length.
    fn poly_mac(term: u64, source: &[u64], target: &mut [u64])
        requires
            source@.len() == old(target)@.len(),
        ensures
            final(target)@ == multiplied(term, source@, old(target)@),
    ;
}

/// One element at a time.
#[derive(Clone, Copy)]
pub struct ScalarEvaluator;

impl Gf64Evaluator for ScalarEvaluator {
    fn poly_mac(term: u64, source: &[u64], target: &mut [u64]) {
        let ghost start = target@;
        let mut index: usize = 0;
        while index < source.len()
            invariant
                index <= source.len(),
                source@.len() == start.len(),
                target@.len() == start.len(),
                forall|i: int|
                    0 <= i < start.len() ==> #[trigger] target@[i] == if i < index {
                        start[i] ^ product(term, source@[i])
                    } else {
                        start[i]
                    },
            decreases source.len() - index,
        {
            target[index] = target[index] ^ gf64_mul(term, source[index]);
            index = index + 1;
        }
        proof {
            assert(target@ =~= multiplied(term, source@, start));
        }
    }
}

/// The evaluator for processors with carry-less multiplication.
#[derive(Clone, Copy)]
pub struct SseEvaluator;

impl Gf64Evaluator for SseEvaluator {
    fn poly_mac(term: u64, source: &[u64], target: &mut [u64]) {
        ScalarEvaluator::poly_mac(term, source, target);
    }
}

/// The evaluator for processors with 512-bit carry-less multiplication: blocks
/// of eight elements, then the remainder.
#[derive(Clone, Copy)]
pub struct Avx512Evaluator;

impl Gf64Evaluator for Avx512Evaluator {
    fn poly_mac(term: u64, source: &[u64], target: &mut [u64]) {
        let ghost start = target@;
        let len: usize = source.len();
        let mut index: usize = 0;
        while len - index >= 8
            invariant
                index <= len,
                len == source@.len(),
                len == start.len(),
                target@.len() == start.len(),
                forall|i: int|
                    0 <= i < start.len() ==> #[trigger] target@[i] == if i < index {
                        start[i] ^ product(term, source@[i])
                    } else {
                        start[i]
                    },
            decreases len - index,
        {
            let block: usize = index;
            let mut lane: usize = 0;
            while lane < 8
                invariant
                    lane <= 8,
                    block + 8 <= len,
                    len == source@.len(),
                    len == start.len(),
                    target@.len() == start.len(),
                    forall|i: int|
                        0 <= i < start.len() ==> #[trigger] target@[i] == if i < block + lane {
                            start[i] ^ product(term, source@[i])
                        } else {
                            start[i]
                        },
                decreases 8 - lane,
            {
                target[block + lane] = target[block + lane] ^ gf64_mul(
                    term,
                    source[block + lane],
                );
                lane = lane + 1;
            }
            index = index + 8;
        }
        while index < len
            invariant
                index <= len,
                len == source@.len(),
                len == start.len(),
                target@.len() == start.len(),
                forall|i: int|
                    0 <= i < start.len() ==> #[trigger] target@[i] == if i < index {
                        start[i] ^ product(term, source@[i])
                    } else {
                        start[i]
                    },
            decreases len - index,
        {
            target[index] = target[index] ^ gf64_mul(term, source[index]);
            index = index + 1;
        }
        proof {
            assert(target@ =~= multiplied(term, source@, start));
        }
    }
}

/// The evaluators to choose from.
#[derive(Debug, Clone, Copy, PartialEq, Eq, Structural)]
pub enum EvaluatorBackend {
    Scalar,
    Sse,
    Avx512,
}

/// The processor features that decide between evaluators.
#[derive(Debug, Clone, Copy, PartialEq, Eq, Structural)]
pub struct CpuFeatures {
    pub avx512f: bool,
    pub avx512bw: bool,
    pub vpclmulqdq: bool,
    pub pclmulqdq: bool,
}

/// The best evaluator that the processor supports.
pub fn get_evaluator(features: CpuFeatures) -> (backend: EvaluatorBackend)
    ensures
        backend == if features.avx512f && features.avx512bw && features.vpclmulqdq {
            EvaluatorBackend::Avx512
        } else if features.pclmulqdq {
            EvaluatorBackend::Sse
        } else {
            EvaluatorBackend::Scalar
        },
{
    if features.avx512f && features.avx512bw && features.vpclmulqdq {
        return EvaluatorBackend::Avx512;
    }
    if features.pclmulqdq {
        EvaluatorBackend::Sse
    } else {
        EvaluatorBackend::Scalar
    }
}

} // verus!
