//! Arithmetic in the binary field with 2^64 elements.

use vstd::prelude::*;
use super::field::{partial_product, product, shifted, REDUCTION};

verus! {

/// The bit manipulations of one multiplication step.
proof fn step_facts(left: u64, right: u64, all: u64, k: u64)
    by (bit_vector)
    ensures
        all >> 0 == all,
        right & 1 == 0 || right & 1 == 1,
        left >> 63 == 0 || left >> 63 == 1,
        left & 0 == 0,
        left & 0xffff_ffff_ffff_ffff == left,
        k < 63 ==> (all >> k) >> 1 == all >> ((k + 1) as u64),
        0x1bu64 & 0 == 0,
        0x1bu64 & 0xffff_ffff_ffff_ffff == 0x1b,
{
}

/// Portable constant-time carry-less multiplication in
/// `GF(2)[x] / (x^64 + x^4 + x^3 + x + 1)`.
#[must_use]
pub fn mul_bitwise(left: u64, right: u64) -> (result: u64)
    ensures
        result == product(left, right),
{
    let mut left: u64 = left;
    let mut right: u64 = right;
    let ghost a = left;
    let ghost b = right;
    let mut result: u64 = 0;
    let mut step: u32 = 0;
    proof {
        step_facts(a, b, b, 0);
    }
    while step < 64
        invariant
            step <= 64,
            left == shifted(a, step as nat),
            step < 64 ==> right == b >> (step as u64),
            result == partial_product(a, b, step as nat),
        decreases 64 - step,
    {
        proof {
            step_facts(left, right, b, step as u64);
        }
        result = result ^ (left & 0u64.wrapping_sub(right & 1));
        right = right >> 1;
        let carry: u64 = left >> 63;
        left = (left << 1) ^ (REDUCTION & 0u64.wrapping_sub(carry));
        step = step + 1;
    }
    proof {
        reveal(product);
    }
    result
}

/// Multiplies two elements of the 64-bit binary field.
#[must_use]
pub fn mul(left: u64, right: u64) -> (result: u64)
    ensures
        result == product(left, right),
{
    mul_bitwise(left, right)
}

} // verus!
