//! The binary field with 2^64 elements.
//!
//! An element is a `u64` whose bits are the coefficients of a polynomial over
//! the two-element field, taken modulo `x^64 + x^4 + x^3 + x + 1`. Addition is
//! exclusive or. This module defines multiplication and powers, and proves the
//! field laws that the sketch decoder rests on.

use vstd::prelude::*;
use vstd::arithmetic::power2::{lemma2_to64, lemma2_to64_rest, lemma_pow2_unfold, pow2};

verus! {

/// Reduction polynomial without its leading `x^64` term.
pub const REDUCTION: u64 = 0x1b;

/// Multiplies an element by `x`.
pub open spec fn times_x(a: u64) -> u64 {
    (a << 1) ^ (if a >> 63 == 1 {
        0x1bu64
    } else {
        0u64
    })
}

/// Multiplies an element by `x^n`.
pub open spec fn shifted(a: u64, n: nat) -> u64
    decreases n,
{
    if n == 0 {
        a
    } else {
        times_x(shifted(a, (n - 1) as nat))
    }
}

/// The coefficient of `x^i` in an element.
pub open spec fn bit(a: u64, i: nat) -> bool {
    (a >> (i as u64)) & 1 == 1
}

/// The sum of `a * x^i` over the first `n` coefficients of `b` that are set.
pub open spec fn partial_product(a: u64, b: u64, n: nat) -> u64
    decreases n,
{
    if n == 0 {
        0
    } else {
        partial_product(a, b, (n - 1) as nat) ^ (if bit(b, (n - 1) as nat) {
            shifted(a, (n - 1) as nat)
        } else {
            0
        })
    }
}

/// The product of two field elements.
#[verifier::opaque]
pub open spec fn product(a: u64, b: u64) -> u64 {
    partial_product(a, b, 64)
}

/// The `n`-th power of a field element.
pub open spec fn power(a: u64, n: nat) -> u64
    decreases n,
{
    if n == 0 {
        1
    } else {
        product(power(a, (n - 1) as nat), a)
    }
}

/// The square of a field element.
pub open spec fn square(a: u64) -> u64 {
    product(a, a)
}

/// `a` squared `n` times.
pub open spec fn frobenius(a: u64, n: nat) -> u64
    decreases n,
{
    if n == 0 {
        a
    } else {
        square(frobenius(a, (n - 1) as nat))
    }
}

/// Exclusive or is commutative, associative and its own inverse.
proof fn xor_laws(a: u64, b: u64, c: u64, d: u64)
    by (bit_vector)
    ensures
        a ^ b == b ^ a,
        (a ^ b) ^ c == a ^ (b ^ c),
        a ^ a == 0,
        a ^ 0 == a,
        0 ^ a == a,
        (a ^ b) ^ (c ^ d) == (a ^ c) ^ (b ^ d),
        (a ^ b) ^ b == a,
        a ^ (a ^ b) == b,
        a ^ b == 0 ==> a == b,
{
}

/// Addition is commutative.
pub proof fn xor_comm(a: u64, b: u64)
    ensures
        a ^ b == b ^ a,
{
    xor_laws(a, b, 0, 0);
}

/// Addition is associative.
pub proof fn xor_assoc(a: u64, b: u64, c: u64)
    ensures
        (a ^ b) ^ c == a ^ (b ^ c),
{
    xor_laws(a, b, c, 0);
}

/// Every element is its own negative.
pub proof fn xor_self(a: u64)
    ensures
        a ^ a == 0,
{
    xor_laws(a, 0, 0, 0);
}

/// Zero is neutral for addition.
pub proof fn xor_zero(a: u64)
    ensures
        a ^ 0 == a,
        0 ^ a == a,
{
    xor_laws(a, 0, 0, 0);
}

/// Sums of pairs can be regrouped.
pub proof fn xor_exchange(a: u64, b: u64, c: u64, d: u64)
    ensures
        (a ^ b) ^ (c ^ d) == (a ^ c) ^ (b ^ d),
{
    xor_laws(a, b, c, d);
}

/// Adding the same element twice changes nothing.
pub proof fn xor_cancel(a: u64, b: u64)
    ensures
        (a ^ b) ^ b == a,
        a ^ (a ^ b) == b,
        a ^ b == 0 ==> a == b,
{
    xor_laws(a, b, 0, 0);
}

proof fn times_x_linear(a: u64, b: u64)
    by (bit_vector)
    ensures
        times_x(a ^ b) == times_x(a) ^ times_x(b),
        times_x(0) == 0,
{
}

proof fn shifted_linear(a: u64, b: u64, n: nat)
    ensures
        shifted(a ^ b, n) == shifted(a, n) ^ shifted(b, n),
        shifted(0, n) == 0,
    decreases n,
{
    if n > 0 {
        shifted_linear(a, b, (n - 1) as nat);
        times_x_linear(shifted(a, (n - 1) as nat), shifted(b, (n - 1) as nat));
    }
}

proof fn shifted_add(a: u64, m: nat, n: nat)
    ensures
        shifted(shifted(a, m), n) == shifted(a, m + n),
    decreases n,
{
    if n > 0 {
        shifted_add(a, m, (n - 1) as nat);
    }
}

/// Coefficients add.
pub proof fn bit_xor(a: u64, b: u64, i: nat)
    requires
        i < 64,
    ensures
        bit(a ^ b, i) == (bit(a, i) != bit(b, i)),
{
    let k: u64 = i as u64;
    assert(((a ^ b) >> k) & 1 == 1 <==> (((a >> k) & 1 == 1) != ((b >> k) & 1 == 1)))
        by (bit_vector);
}

proof fn partial_linear_left(a: u64, b: u64, c: u64, n: nat)
    ensures
        partial_product(a ^ b, c, n) == partial_product(a, c, n) ^ partial_product(b, c, n),
    decreases n,
{
    if n == 0 {
        xor_self(0);
    } else {
        let m = (n - 1) as nat;
        partial_linear_left(a, b, c, m);
        shifted_linear(a, b, m);
        xor_zero(0);
        if bit(c, m) {
            xor_exchange(
                partial_product(a, c, m),
                partial_product(b, c, m),
                shifted(a, m),
                shifted(b, m),
            );
        } else {
            xor_exchange(partial_product(a, c, m), partial_product(b, c, m), 0, 0);
        }
    }
}

proof fn partial_linear_right(a: u64, b: u64, c: u64, n: nat)
    requires
        n <= 64,
    ensures
        partial_product(a, b ^ c, n) == partial_product(a, b, n) ^ partial_product(a, c, n),
    decreases n,
{
    if n == 0 {
        xor_self(0);
    } else {
        let m = (n - 1) as nat;
        partial_linear_right(a, b, c, m);
        bit_xor(b, c, m);
        let s = shifted(a, m);
        let x = if bit(b, m) {
            s
        } else {
            0
        };
        let y = if bit(c, m) {
            s
        } else {
            0
        };
        xor_zero(s);
        xor_zero(s);
        xor_self(s);
        xor_zero(0);
        xor_exchange(partial_product(a, b, m), partial_product(a, c, m), x, y);
    }
}

/// Multiplication distributes over addition on the left.
pub proof fn product_add_left(a: u64, b: u64, c: u64)
    ensures
        product(a ^ b, c) == product(a, c) ^ product(b, c),
{
    reveal(product);
    partial_linear_left(a, b, c, 64);
}

/// Multiplication distributes over addition on the right.
pub proof fn product_add_right(a: u64, b: u64, c: u64)
    ensures
        product(a, b ^ c) == product(a, b) ^ product(a, c),
{
    reveal(product);
    partial_linear_right(a, b, c, 64);
}

/// Zero annihilates.
pub proof fn product_zero(a: u64)
    ensures
        product(a, 0) == 0,
        product(0, a) == 0,
{
    product_add_right(a, 0, 0);
    product_add_left(0, 0, a);
    xor_self(0);
    xor_self(product(a, 0));
    xor_self(product(0, a));
}

/// The low `n` coefficients of an element.
pub open spec fn low(a: u64, n: nat) -> u64 {
    if n >= 64 {
        a
    } else {
        a & (((1u64 << (n as u64)) - 1) as u64)
    }
}

/// The low coefficients grow by one term at a time.
pub proof fn low_step(a: u64, n: nat)
    requires
        n < 64,
    ensures
        low(a, n + 1) == low(a, n) ^ (if bit(a, n) {
            1u64 << (n as u64)
        } else {
            0
        }),
        low(a, 0) == 0,
{
    let k: u64 = n as u64;
    let j: u64 = (n + 1) as u64;
    assert(a & (((1u64 << 0) - 1) as u64) == 0 && (k < 63 && j == k + 1 ==> a & (((1u64 << j)
        - 1) as u64) == (a & (((1u64 << k) - 1) as u64)) ^ (if (a >> k) & 1 == 1 {
        1u64 << k
    } else {
        0
    })) && a == (a & (((1u64 << 63) - 1) as u64)) ^ (if (a >> 63) & 1 == 1 {
        1u64 << 63
    } else {
        0
    })) by (bit_vector);
}

/// A map that respects addition.
spec fn additive(f: spec_fn(u64) -> u64) -> bool {
    forall|a: u64, b: u64| #![trigger f(a ^ b)] f(a ^ b) == f(a) ^ f(b)
}

/// Additive maps that agree on the powers `x^0 .. x^63` agree everywhere.
proof fn additive_ext(f: spec_fn(u64) -> u64, g: spec_fn(u64) -> u64, a: u64)
    requires
        additive(f),
        additive(g),
        forall|i: nat| i < 64 ==> #[trigger] f(1u64 << (i as u64)) == g(1u64 << (i as u64)),
    ensures
        f(a) == g(a),
{
    additive_ext_low(f, g, a, 64);
}

proof fn additive_ext_low(f: spec_fn(u64) -> u64, g: spec_fn(u64) -> u64, a: u64, n: nat)
    requires
        n <= 64,
        additive(f),
        additive(g),
        forall|i: nat| i < 64 ==> #[trigger] f(1u64 << (i as u64)) == g(1u64 << (i as u64)),
    ensures
        f(low(a, n)) == g(low(a, n)),
    decreases n,
{
    assert(f(0) == 0 && g(0) == 0) by {
        xor_self(0);
        assert(f(0u64 ^ 0u64) == f(0) ^ f(0));
        assert(g(0u64 ^ 0u64) == g(0) ^ g(0));
        xor_self(f(0));
        xor_self(g(0));
    }
    if n == 0 {
        low_step(a, 0);
    } else {
        let m = (n - 1) as nat;
        additive_ext_low(f, g, a, m);
        low_step(a, m);
        let t: u64 = if bit(a, m) {
            1u64 << (m as u64)
        } else {
            0
        };
        assert(f(low(a, m) ^ t) == f(low(a, m)) ^ f(t));
        assert(g(low(a, m) ^ t) == g(low(a, m)) ^ g(t));
        assert(f(1u64 << (m as u64)) == g(1u64 << (m as u64)));
    }
}

proof fn shifted_one(n: nat)
    requires
        n < 64,
    ensures
        shifted(1, n) == 1u64 << (n as u64),
    decreases n,
{
    let k: u64 = (n - 1) as u64;
    let j: u64 = n as u64;
    assert(1u64 << 0 == 1u64 && (k < 63 && j == k + 1 ==> times_x(1u64 << k) == 1u64 << j))
        by (bit_vector);
    if n > 0 {
        shifted_one((n - 1) as nat);
    }
}

/// Elements with the same coefficients are equal.
pub proof fn bits_equal(a: u64, b: u64, n: nat)
    requires
        n <= 64,
        forall|i: nat| i < 64 ==> #[trigger] bit(a, i) == bit(b, i),
    ensures
        low(a, n) == low(b, n),
    decreases n,
{
    if n == 0 {
        low_step(a, 0);
        low_step(b, 0);
    } else {
        let m = (n - 1) as nat;
        bits_equal(a, b, m);
        low_step(a, m);
        low_step(b, m);
        assert(bit(a, m) == bit(b, m));
    }
}

/// Testing and setting a coefficient with a mask.
pub proof fn bit_mask(a: u64, n: nat, i: nat)
    requires
        n < 64,
        i < 64,
    ensures
        a & (1u64 << (n as u64)) != 0 <==> bit(a, n),
        bit(a | (1u64 << (n as u64)), i) <==> bit(a, i) || i == n,
        !bit(0, i),
{
    let k: u64 = n as u64;
    let j: u64 = i as u64;
    assert(k < 64 && j < 64 ==> (a & (1u64 << k) != 0 <==> (a >> k) & 1 == 1) && (((a | (1u64
        << k)) >> j) & 1 == 1 <==> ((a >> j) & 1 == 1 || j == k)) && (0u64 >> j) & 1 != 1)
        by (bit_vector);
}

proof fn bit_of_unit(n: nat, i: nat)
    requires
        n < 64,
        i < 64,
    ensures
        bit(1u64 << (n as u64), i) == (i == n),
{
    let k: u64 = n as u64;
    let j: u64 = i as u64;
    assert(k < 64 && j < 64 ==> (((1u64 << k) >> j) & 1 == 1 <==> k == j)) by (bit_vector);
}

proof fn partial_product_unit(a: u64, n: nat, m: nat)
    requires
        n < 64,
        m <= 64,
    ensures
        partial_product(a, 1u64 << (n as u64), m) == if m > n {
            shifted(a, n)
        } else {
            0
        },
    decreases m,
{
    if m > 0 {
        let p = (m - 1) as nat;
        partial_product_unit(a, n, p);
        bit_of_unit(n, p);
        xor_zero(shifted(a, n));
        xor_zero(shifted(a, n));
        xor_zero(0);
    }
}

proof fn product_unit(a: u64, n: nat)
    requires
        n < 64,
    ensures
        product(a, 1u64 << (n as u64)) == shifted(a, n),
{
    reveal(product);
    partial_product_unit(a, n, 64);
}

proof fn product_comm_unit(a: u64, n: nat)
    requires
        n < 64,
    ensures
        product(a, 1u64 << (n as u64)) == product(1u64 << (n as u64), a),
{
    let u = 1u64 << (n as u64);
    let f = |x: u64| product(x, u);
    let g = |x: u64| product(u, x);
    assert forall|x: u64, y: u64| #![trigger f(x ^ y)] f(x ^ y) == f(x) ^ f(y) by {
        product_add_left(x, y, u);
    }
    assert forall|x: u64, y: u64| #![trigger g(x ^ y)] g(x ^ y) == g(x) ^ g(y) by {
        product_add_right(u, x, y);
    }
    assert forall|i: nat| i < 64 implies #[trigger] f(1u64 << (i as u64)) == g(
        1u64 << (i as u64),
    ) by {
        let v = 1u64 << (i as u64);
        product_unit(v, n);
        product_unit(u, i);
        shifted_one(i);
        shifted_one(n);
        shifted_add(1, i, n);
        shifted_add(1, n, i);
        assert(i + n == n + i);
    }
    additive_ext(f, g, a);
}

/// Multiplication is commutative.
pub proof fn product_comm(a: u64, b: u64)
    ensures
        product(a, b) == product(b, a),
{
    let f = |x: u64| product(a, x);
    let g = |x: u64| product(x, a);
    assert forall|x: u64, y: u64| #![trigger f(x ^ y)] f(x ^ y) == f(x) ^ f(y) by {
        product_add_right(a, x, y);
    }
    assert forall|x: u64, y: u64| #![trigger g(x ^ y)] g(x ^ y) == g(x) ^ g(y) by {
        product_add_left(x, y, a);
    }
    assert forall|i: nat| i < 64 implies #[trigger] f(1u64 << (i as u64)) == g(
        1u64 << (i as u64),
    ) by {
        product_comm_unit(a, i);
    }
    additive_ext(f, g, b);
}

proof fn partial_times_x(a: u64, b: u64, n: nat)
    ensures
        partial_product(times_x(a), b, n) == times_x(partial_product(a, b, n)),
    decreases n,
{
    times_x_linear(0, 0);
    if n > 0 {
        let m = (n - 1) as nat;
        partial_times_x(a, b, m);
        shifted_add(a, 1, m);
        shifted_add(a, m, 1);
        assert(shifted(a, 1) == times_x(a)) by {
            reveal_with_fuel(shifted, 2);
        }
        assert(shifted(shifted(a, m), 1) == times_x(shifted(a, m))) by {
            reveal_with_fuel(shifted, 2);
        }
        times_x_linear(partial_product(a, b, m), shifted(a, m));
        times_x_linear(partial_product(a, b, m), 0);
    }
}

proof fn product_shifted(a: u64, b: u64, n: nat)
    ensures
        product(shifted(a, n), b) == shifted(product(a, b), n),
    decreases n,
{
    if n > 0 {
        product_shifted(a, b, (n - 1) as nat);
        reveal(product);
        partial_times_x(shifted(a, (n - 1) as nat), b, 64);
    }
}

/// Multiplication is associative.
pub proof fn product_assoc(a: u64, b: u64, c: u64)
    ensures
        product(product(a, b), c) == product(a, product(b, c)),
{
    let f = |x: u64| product(product(a, b), x);
    let g = |x: u64| product(a, product(b, x));
    assert forall|x: u64, y: u64| #![trigger f(x ^ y)] f(x ^ y) == f(x) ^ f(y) by {
        product_add_right(product(a, b), x, y);
    }
    assert forall|x: u64, y: u64| #![trigger g(x ^ y)] g(x ^ y) == g(x) ^ g(y) by {
        product_add_right(b, x, y);
        product_add_right(a, product(b, x), product(b, y));
    }
    assert forall|i: nat| i < 64 implies #[trigger] f(1u64 << (i as u64)) == g(
        1u64 << (i as u64),
    ) by {
        product_unit(product(a, b), i);
        product_unit(b, i);
        product_comm(a, shifted(b, i));
        product_shifted(b, a, i);
        product_comm(a, b);
    }
    additive_ext(f, g, c);
}

/// One is neutral for multiplication.
pub proof fn product_one(a: u64)
    ensures
        product(a, 1) == a,
        product(1, a) == a,
{
    shifted_one(0);
    product_unit(a, 0);
    product_comm(a, 1);
}

/// Squaring is additive.
pub proof fn square_add(a: u64, b: u64)
    ensures
        square(a ^ b) == square(a) ^ square(b),
{
    product_add_left(a, b, a ^ b);
    product_add_right(a, a, b);
    product_add_right(b, a, b);
    product_comm(a, b);
    let p = product(a, b);
    let x = product(a, a);
    let y = product(b, b);
    xor_assoc(x, p, p ^ y);
    xor_cancel(p, y);
}

/// Spreads the low 32 bits of `x` over the even positions.
spec fn spread(x: u64) -> u64 {
    let a: u64 = (x | (x << 16)) & 0x0000_ffff_0000_ffff;
    let b: u64 = (a | (a << 8)) & 0x00ff_00ff_00ff_00ff;
    let c: u64 = (b | (b << 4)) & 0x0f0f_0f0f_0f0f_0f0f;
    let d: u64 = (c | (c << 2)) & 0x3333_3333_3333_3333;
    (d | (d << 1)) & 0x5555_5555_5555_5555
}

/// The square of an element in closed form: its bits spread over the even
/// positions, and the upper half folded back by the reduction polynomial.
spec fn square_bits(a: u64) -> u64 {
    let lo: u64 = spread(a & 0xffff_ffff);
    let hi: u64 = spread(a >> 32);
    let over: u64 = (hi >> 63) ^ (hi >> 61) ^ (hi >> 60);
    lo ^ hi ^ (hi << 1) ^ (hi << 3) ^ (hi << 4) ^ over ^ (over << 1) ^ (over << 3) ^ (over << 4)
}

proof fn square_bits_facts(a: u64, b: u64, i: u64)
    by (bit_vector)
    ensures
        square_bits(a ^ b) == square_bits(a) ^ square_bits(b),
        square_bits(1) == 1,
        i < 63 ==> square_bits(1u64 << ((i + 1) as u64)) == times_x(
            times_x(square_bits(1u64 << i)),
        ),
{
}

/// Only zero and one are their own squares.
proof fn square_bits_fixed(a: u64)
    by (bit_vector)
    requires
        square_bits(a) == a,
    ensures
        a == 0 || a == 1,
{
}

proof fn square_bits_unit(n: nat)
    requires
        n < 64,
    ensures
        square_bits(1u64 << (n as u64)) == shifted(1, 2 * n),
    decreases n,
{
    shifted_one(0);
    if n == 0 {
        square_bits_facts(0, 0, 0);
    } else {
        let m = (n - 1) as nat;
        square_bits_unit(m);
        square_bits_facts(0, 0, m as u64);
        reveal_with_fuel(shifted, 3);
    }
}

proof fn square_is_bits(a: u64)
    ensures
        square(a) == square_bits(a),
{
    let f = |x: u64| square(x);
    let g = |x: u64| square_bits(x);
    assert forall|x: u64, y: u64| #![trigger f(x ^ y)] f(x ^ y) == f(x) ^ f(y) by {
        square_add(x, y);
    }
    assert forall|x: u64, y: u64| #![trigger g(x ^ y)] g(x ^ y) == g(x) ^ g(y) by {
        square_bits_facts(x, y, 0);
    }
    assert forall|i: nat| i < 64 implies #[trigger] f(1u64 << (i as u64)) == g(
        1u64 << (i as u64),
    ) by {
        product_unit(1u64 << (i as u64), i);
        shifted_one(i);
        shifted_add(1, i, i);
        square_bits_unit(i);
    }
    additive_ext(f, g, a);
}

/// Zero and one are the only elements that equal their square.
pub proof fn square_fixed(a: u64)
    requires
        square(a) == a,
    ensures
        a == 0 || a == 1,
{
    square_is_bits(a);
    square_bits_fixed(a);
}

/// Repeated squaring is additive.
pub proof fn frobenius_add(a: u64, b: u64, n: nat)
    ensures
        frobenius(a ^ b, n) == frobenius(a, n) ^ frobenius(b, n),
    decreases n,
{
    if n > 0 {
        frobenius_add(a, b, (n - 1) as nat);
        square_add(frobenius(a, (n - 1) as nat), frobenius(b, (n - 1) as nat));
    }
}

/// A product of two products can be regrouped.
pub proof fn product_exchange(a: u64, b: u64, c: u64, d: u64)
    ensures
        product(product(a, b), product(c, d)) == product(product(a, c), product(b, d)),
{
    product_assoc(a, b, product(c, d));
    product_assoc(b, c, d);
    product_comm(b, c);
    product_assoc(c, b, d);
    product_assoc(a, c, product(b, d));
}

/// Repeated squaring is multiplicative.
pub proof fn frobenius_product(a: u64, b: u64, n: nat)
    ensures
        frobenius(product(a, b), n) == product(frobenius(a, n), frobenius(b, n)),
    decreases n,
{
    if n > 0 {
        let m = (n - 1) as nat;
        frobenius_product(a, b, m);
        product_exchange(frobenius(a, m), frobenius(b, m), frobenius(a, m), frobenius(b, m));
    }
}

proof fn generator_squares()
    by (bit_vector)
    ensures
        square_bits(0x2) == 0x4,
        square_bits(0x4) == 0x10,
        square_bits(0x10) == 0x100,
        square_bits(0x100) == 0x10000,
        square_bits(0x10000) == 0x100000000,
        square_bits(0x100000000) == 0x1b,
        square_bits(0x1b) == 0x145,
        square_bits(0x145) == 0x11011,
        square_bits(0x11011) == 0x101000101,
        square_bits(0x101000101) == 0x100000001001a,
        square_bits(0x100000001001a) == 0x1a00000144,
        square_bits(0x1a00000144) == 0x10dbc,
        square_bits(0x10dbc) == 0x100514550,
        square_bits(0x100514550) == 0x11011011111b,
        square_bits(0x11011011111b) == 0x10001011a1a015e,
        square_bits(0x10001011a1a015e) == 0x15f0144001a114f,
        square_bits(0x15f0144001a114f) == 0x1aad43011ba1e5,
        square_bits(0x1aad43011ba1e5) == 0x11cefef6be466,
        square_bits(0x11cefef6be466) == 0x5455145e48670f13,
        square_bits(0x5455145e48670f13) == 0xbaf1bebe1ae4ad02,
        square_bits(0xbaf1bebe1ae4ad02) == 0xb0ef530df44bb042,
        square_bits(0xb0ef530df44bb042) == 0xe2170b43ee771735,
        square_bits(0xe2170b43ee771735) == 0x48380fd207a3b527,
        square_bits(0x48380fd207a3b527) == 0xb6d535c542116f62,
        square_bits(0xb6d535c542116f62) == 0xa6df6baa62f965f5,
        square_bits(0xa6df6baa62f965f5) == 0xb9df3947cea0ffe7,
        square_bits(0xb9df3947cea0ffe7) == 0xe1882807248fe588,
        square_bits(0xe1882807248fe588) == 0x180d86953ed141c6,
        square_bits(0x180d86953ed141c6) == 0x1894566cd1db8abf,
        square_bits(0x1894566cd1db8abf) == 0x4cc78bf4ea999e25,
        square_bits(0x4cc78bf4ea999e25) == 0xe333308087e402ba,
        square_bits(0xe333308087e402ba) == 0x5c62236777028505,
        square_bits(0x5c62236777028505) == 0xb964dc682c67ddcd,
        square_bits(0xb964dc682c67ddcd) == 0xb58ac9a23d208acb,
        square_bits(0xb58ac9a23d208acb) == 0xb3fcc2ab3699fc73,
        square_bits(0xb3fcc2ab3699fc73) == 0xb2644136253abfe8,
        square_bits(0xb2644136253abfe8) == 0xb37cd8f5f54e22c6,
        square_bits(0xb37cd8f5f54e22c6) == 0xe267d02369c356e5,
        square_bits(0xe267d02369c356e5) == 0x82c8dc57a143827,
        square_bits(0x82c8dc57a143827) == 0x13846a66c22c75be,
        square_bits(0x13846a66c22c75be) == 0x4b75c5e1cfbc9888,
        square_bits(0x4b75c5e1cfbc9888) == 0xe6e383fc30ec5c40,
        square_bits(0xe6e383fc30ec5c40) == 0x18db4821d1201031,
        square_bits(0x18db4821d1201031) == 0x4cc669b6b7c0691a,
        square_bits(0x4cc669b6b7c0691a) == 0xf26221ddce9cb783,
        square_bits(0xf26221ddce9cb783) == 0x57399d3c29092c2f,
        square_bits(0x57399d3c29092c2f) == 0xae86719cd83b743e,
        square_bits(0xae86719cd83b743e) == 0xfa5ac498d20dd97e,
        square_bits(0xfa5ac498d20dd97e) == 0x50a9adfa20f7c8d5,
        square_bits(0x50a9adfa20f7c8d5) == 0xaf06ffc8fb2c50a6,
        square_bits(0xaf06ffc8fb2c50a6) == 0xfe42058b1100328e,
        square_bits(0xfe42058b1100328e) == 0x11cb06c04a986a2,
        square_bits(0x11cb06c04a986a2) == 0xb5837f7159f74,
        square_bits(0xb5837f7159f74) == 0x551507a7ec9563d7,
        square_bits(0x551507a7ec9563d7) == 0xfefb5bba15c4fcc9,
        square_bits(0xfefb5bba15c4fcc9) == 0x10a51a6f8e1e1ac,
        square_bits(0x10a51a6f8e1e1ac) == 0x555b52acff1ce98c,
        square_bits(0x555b52acff1ce98c) == 0xfffface6ff2beb3b,
        square_bits(0xfffface6ff2beb3b) == 0x55550444ff3218d8,
        square_bits(0x55550444ff3218d8) == 0xffffafaf00f1e0eb,
        square_bits(0xffffafaf00f1e0eb) == 0x5500ff01ff03,
        square_bits(0x5500ff01ff03) == 0x55550000fffe0005,
        square_bits(0x55550000fffe0005) == 0xffffffff0000000a,
        square_bits(0xffffffff0000000a) == 0x2,
{
}

/// Squaring the generator `x` sixty-four times gives `x` again.
proof fn frobenius_generator()
    ensures
        frobenius(2, 64) == 2,
{
    generator_squares();
    square_is_bits(0x2);
    square_is_bits(0x4);
    square_is_bits(0x10);
    square_is_bits(0x100);
    square_is_bits(0x10000);
    square_is_bits(0x100000000);
    square_is_bits(0x1b);
    square_is_bits(0x145);
    square_is_bits(0x11011);
    square_is_bits(0x101000101);
    square_is_bits(0x100000001001a);
    square_is_bits(0x1a00000144);
    square_is_bits(0x10dbc);
    square_is_bits(0x100514550);
    square_is_bits(0x11011011111b);
    square_is_bits(0x10001011a1a015e);
    square_is_bits(0x15f0144001a114f);
    square_is_bits(0x1aad43011ba1e5);
    square_is_bits(0x11cefef6be466);
    square_is_bits(0x5455145e48670f13);
    square_is_bits(0xbaf1bebe1ae4ad02);
    square_is_bits(0xb0ef530df44bb042);
    square_is_bits(0xe2170b43ee771735);
    square_is_bits(0x48380fd207a3b527);
    square_is_bits(0xb6d535c542116f62);
    square_is_bits(0xa6df6baa62f965f5);
    square_is_bits(0xb9df3947cea0ffe7);
    square_is_bits(0xe1882807248fe588);
    square_is_bits(0x180d86953ed141c6);
    square_is_bits(0x1894566cd1db8abf);
    square_is_bits(0x4cc78bf4ea999e25);
    square_is_bits(0xe333308087e402ba);
    square_is_bits(0x5c62236777028505);
    square_is_bits(0xb964dc682c67ddcd);
    square_is_bits(0xb58ac9a23d208acb);
    square_is_bits(0xb3fcc2ab3699fc73);
    square_is_bits(0xb2644136253abfe8);
    square_is_bits(0xb37cd8f5f54e22c6);
    square_is_bits(0xe267d02369c356e5);
    square_is_bits(0x82c8dc57a143827);
    square_is_bits(0x13846a66c22c75be);
    square_is_bits(0x4b75c5e1cfbc9888);
    square_is_bits(0xe6e383fc30ec5c40);
    square_is_bits(0x18db4821d1201031);
    square_is_bits(0x4cc669b6b7c0691a);
    square_is_bits(0xf26221ddce9cb783);
    square_is_bits(0x57399d3c29092c2f);
    square_is_bits(0xae86719cd83b743e);
    square_is_bits(0xfa5ac498d20dd97e);
    square_is_bits(0x50a9adfa20f7c8d5);
    square_is_bits(0xaf06ffc8fb2c50a6);
    square_is_bits(0xfe42058b1100328e);
    square_is_bits(0x11cb06c04a986a2);
    square_is_bits(0xb5837f7159f74);
    square_is_bits(0x551507a7ec9563d7);
    square_is_bits(0xfefb5bba15c4fcc9);
    square_is_bits(0x10a51a6f8e1e1ac);
    square_is_bits(0x555b52acff1ce98c);
    square_is_bits(0xfffface6ff2beb3b);
    square_is_bits(0x55550444ff3218d8);
    square_is_bits(0xffffafaf00f1e0eb);
    square_is_bits(0x5500ff01ff03);
    square_is_bits(0x55550000fffe0005);
    square_is_bits(0xffffffff0000000a);
    reveal_with_fuel(frobenius, 65);
}

proof fn frobenius_unit(n: nat)
    requires
        n < 64,
    ensures
        frobenius(1u64 << (n as u64), 64) == 1u64 << (n as u64),
    decreases n,
{
    shifted_one(n);
    if n == 0 {
        frobenius_one(64);
    } else {
        let m = (n - 1) as nat;
        frobenius_unit(m);
        shifted_one(m);
        shifted_one(1);
        let u = 1u64 << (m as u64);
        product_unit(u, 1);
        shifted_add(1, m, 1);
        assert(2u64 == 1u64 << 1) by {
            reveal_with_fuel(shifted, 2);
            times_x_one();
        }
        assert(product(u, 2) == 1u64 << (n as u64));
        frobenius_product(u, 2, 64);
        frobenius_generator();
    }
}

proof fn times_x_one()
    by (bit_vector)
    ensures
        times_x(1) == 2,
{
}

proof fn frobenius_one(n: nat)
    ensures
        frobenius(1, n) == 1,
    decreases n,
{
    if n > 0 {
        frobenius_one((n - 1) as nat);
        product_one(1);
    }
}

/// Every element equals its `2^64`-th power.
pub proof fn frobenius_period(a: u64)
    ensures
        frobenius(a, 64) == a,
{
    let f = |x: u64| frobenius(x, 64);
    let g = |x: u64| x;
    assert forall|x: u64, y: u64| #![trigger f(x ^ y)] f(x ^ y) == f(x) ^ f(y) by {
        frobenius_add(x, y, 64);
    }
    assert forall|i: nat| i < 64 implies #[trigger] f(1u64 << (i as u64)) == g(
        1u64 << (i as u64),
    ) by {
        frobenius_unit(i);
    }
    additive_ext(f, g, a);
}

/// Powers of one element multiply by adding their exponents.
pub proof fn power_add(a: u64, m: nat, n: nat)
    ensures
        power(a, m + n) == product(power(a, m), power(a, n)),
    decreases n,
{
    if n == 0 {
        product_one(power(a, m));
    } else {
        let k = (n - 1) as nat;
        power_add(a, m, k);
        product_assoc(power(a, m), power(a, k), a);
        assert(m + n - 1 == m + k);
    }
}

/// Squaring `n` times raises to the power `2^n`.
pub proof fn frobenius_is_power(a: u64, n: nat)
    ensures
        frobenius(a, n) == power(a, pow2(n)),
    decreases n,
{
    lemma2_to64();
    if n == 0 {
        reveal_with_fuel(power, 2);
        product_one(a);
    } else {
        let k = (n - 1) as nat;
        frobenius_is_power(a, k);
        power_add(a, pow2(k), pow2(k));
        lemma_pow2_unfold(n);
    }
}

/// A nonzero element raised to the order of the multiplicative group is one.
pub proof fn power_order(a: u64)
    requires
        a != 0,
    ensures
        power(a, 0xffff_ffff_ffff_ffff) == 1,
{
    frobenius_period(a);
    frobenius_is_power(a, 64);
    lemma2_to64();
    lemma2_to64_rest();
    let e = power(a, 0xffff_ffff_ffff_ffff);
    power_add(a, 1, 0xffff_ffff_ffff_ffff);
    assert(power(a, 1) == a) by {
        reveal_with_fuel(power, 2);
        product_one(a);
    }
    assert(product(a, e) == a);
    assert(square(e) == e) by {
        power_add(a, 0xffff_ffff_ffff_fffe, 1);
        let q = power(a, 0xffff_ffff_ffff_fffe);
        assert(e == product(q, a));
        product_assoc(q, a, e);
    }
    square_fixed(e);
    product_zero(a);
}

/// The inverse of a nonzero element, and zero for zero.
pub open spec fn inverse(a: u64) -> u64 {
    power(a, 0xffff_ffff_ffff_fffe)
}

/// A nonzero element times its inverse is one.
pub proof fn inverse_product(a: u64)
    requires
        a != 0,
    ensures
        product(a, inverse(a)) == 1,
        inverse(a) != 0,
{
    power_order(a);
    power_add(a, 0xffff_ffff_ffff_fffe, 1);
    assert(power(a, 1) == a) by {
        reveal_with_fuel(power, 2);
        product_one(a);
    }
    product_comm(a, inverse(a));
    product_zero(a);
}

/// A product is zero only where a factor is.
pub proof fn no_zero_divisors(a: u64, b: u64)
    ensures
        product(a, b) == 0 <==> a == 0 || b == 0,
{
    product_zero(a);
    product_zero(b);
    if a != 0 && product(a, b) == 0 {
        inverse_product(a);
        product_comm(a, inverse(a));
        product_assoc(inverse(a), a, b);
        product_one(b);
        product_zero(inverse(a));
    }
}

/// The sum of the first `n` conjugates `y, y^2, y^4, ..`.
pub open spec fn partial_trace(y: u64, n: nat) -> u64
    decreases n,
{
    if n == 0 {
        0
    } else {
        partial_trace(y, (n - 1) as nat) ^ frobenius(y, (n - 1) as nat)
    }
}

/// The absolute trace: the sum of all conjugates.
pub open spec fn trace(y: u64) -> u64 {
    partial_trace(y, 64)
}

/// Squaring a partial trace and adding the element gives the next one.
pub proof fn partial_trace_step(y: u64, n: nat)
    ensures
        partial_trace(y, n + 1) == square(partial_trace(y, n)) ^ y,
    decreases n,
{
    product_zero(0);
    if n == 0 {
        reveal_with_fuel(partial_trace, 2);
    } else {
        let m = (n - 1) as nat;
        partial_trace_step(y, m);
        let p = partial_trace(y, m);
        let f = frobenius(y, m);
        square_add(p, f);
        xor_assoc(square(p), y, square(f));
        xor_comm(y, square(f));
        xor_assoc(square(p), square(f), y);
        assert(partial_trace(y, n) == p ^ f);
        assert(partial_trace(y, n + 1) == partial_trace(y, n) ^ frobenius(y, n));
    }
}

/// A trace is zero or one.
pub proof fn trace_is_bit(y: u64)
    ensures
        trace(y) == 0 || trace(y) == 1,
{
    let t = trace(y);
    partial_trace_step(y, 64);
    frobenius_period(y);
    assert(partial_trace(y, 65) == t ^ frobenius(y, 64));
    xor_comm(t, y);
    xor_comm(square(t), y);
    xor_cancel(y, t);
    xor_cancel(y, square(t));
    square_fixed(t);
}

proof fn partial_trace_add(a: u64, b: u64, n: nat)
    ensures
        partial_trace(a ^ b, n) == partial_trace(a, n) ^ partial_trace(b, n),
    decreases n,
{
    if n == 0 {
        xor_zero(0);
    } else {
        let m = (n - 1) as nat;
        partial_trace_add(a, b, m);
        frobenius_add(a, b, m);
        xor_exchange(partial_trace(a, m), partial_trace(b, m), frobenius(a, m), frobenius(b, m));
    }
}

/// The trace is additive.
pub proof fn trace_add(a: u64, b: u64)
    ensures
        trace(a ^ b) == trace(a) ^ trace(b),
{
    partial_trace_add(a, b, 64);
}

proof fn witness_conjugates()
    by (bit_vector)
    ensures
        square_bits(0x2000000000000000) == 0x6c00000000000000,
        0x2000000000000000u64 ^ 0x6c00000000000000u64 == 0x4c00000000000000,
        square_bits(0x6c00000000000000) == 0xdb7000000000001b,
        0x4c00000000000000u64 ^ 0xdb7000000000001bu64 == 0x977000000000001b,
        square_bits(0xdb7000000000001b) == 0x6db6c70000000104,
        0x977000000000001bu64 ^ 0x6db6c70000000104u64 == 0xfac6c7000000011f,
        square_bits(0x6db6c70000000104) == 0xdb6db6db71c6000b,
        0xfac6c7000000011fu64 ^ 0xdb6db6db71c6000bu64 == 0x21ab71db71c60114,
        square_bits(0xdb6db6db71c6000b) == 0x78b78b79b6db6db3,
        0x21ab71db71c60114u64 ^ 0x78b78b79b6db6db3u64 == 0x591cfaa2c71d6ca7,
        square_bits(0x78b78b79b6db6db3) == 0x84d2e784d2e784c5,
        0x591cfaa2c71d6ca7u64 ^ 0x84d2e784d2e784c5u64 == 0xddce1d2615fae862,
        square_bits(0x84d2e784d2e784c5) == 0x90b33f7e5dd191fb,
        0xddce1d2615fae862u64 ^ 0x90b33f7e5dd191fbu64 == 0x4d7d2258482b7999,
        square_bits(0x90b33f7e5dd191fb) == 0xca57e67631079503,
        0x4d7d2258482b7999u64 ^ 0xca57e67631079503u64 == 0x872ac42e792cec9a,
        square_bits(0xca57e67631079503) == 0x73acaad55cccc698,
        0x872ac42e792cec9au64 ^ 0x73acaad55cccc698u64 == 0xf4866efb25e02a02,
        square_bits(0x73acaad55cccc698) == 0xd621fb26fabf2bf0,
        0xf4866efb25e02a02u64 ^ 0xd621fb26fabf2bf0u64 == 0x22a795dddf5f01f2,
        square_bits(0xd621fb26fabf2bf0) == 0x3f98294905f2389d,
        0x22a795dddf5f01f2u64 ^ 0x3f98294905f2389du64 == 0x1d3fbc94daad396f,
        square_bits(0x3f98294905f2389d) == 0x701088c46f9af78a,
        0x1d3fbc94daad396fu64 ^ 0x701088c46f9af78au64 == 0x6d2f3450b537cee5,
        square_bits(0x701088c46f9af78a) == 0xd3555a4293d231ef,
        0x6d2f3450b537cee5u64 ^ 0xd3555a4293d231efu64 == 0xbe7a6e1226e5ff0a,
        square_bits(0xd3555a4293d231ef) == 0x2a73fbaea8ace478,
        0xbe7a6e1226e5ff0au64 ^ 0x2a73fbaea8ace478u64 == 0x940995bc8e491b72,
        square_bits(0x2a73fbaea8ace478) == 0x2eed832055a1be5c,
        0x940995bc8e491b72u64 ^ 0x2eed832055a1be5cu64 == 0xbae4169cdbe8a52e,
        square_bits(0x2eed832055a1be5c) == 0x7a0a5f6c85237d50,
        0xbae4169cdbe8a52eu64 ^ 0x7a0a5f6c85237d50u64 == 0xc0ee49f05ecbd87e,
        square_bits(0x7a0a5f6c85237d50) == 0x81bd02a8b957ca6b,
        0xc0ee49f05ecbd87eu64 ^ 0x81bd02a8b957ca6bu64 == 0x41534b58e79c1215,
        square_bits(0x81bd02a8b957ca6b) == 0x855ca17e502ebedf,
        0x41534b58e79c1215u64 ^ 0x855ca17e502ebedfu64 == 0xc40fea26b7b2acca,
        square_bits(0x855ca17e502ebedf) == 0xd0aaa822e94e9113,
        0xc40fea26b7b2accau64 ^ 0xd0aaa822e94e9113u64 == 0x14a542045efc3dd9,
        square_bits(0xd0aaa822e94e9113) == 0x3f47bafeebc16d28,
        0x14a542045efc3dd9u64 ^ 0x3f47bafeebc16d28u64 == 0x2be2f8fab53d50f1,
        square_bits(0x3f47bafeebc16d28) == 0x2443e1c0a5fa045c,
        0x2be2f8fab53d50f1u64 ^ 0x2443e1c0a5fa045cu64 == 0xfa1193a10c754ad,
        square_bits(0x2443e1c0a5fa045c) == 0x29a0e5341c0c6150,
        0xfa1193a10c754adu64 ^ 0x29a0e5341c0c6150u64 == 0x2601fc0e0ccb35fd,
        square_bits(0x29a0e5341c0c6150) == 0x6b8dac5709aa67b0,
        0x2601fc0e0ccb35fdu64 ^ 0x6b8dac5709aa67b0u64 == 0x4d8c50590561524d,
        square_bits(0x6b8dac5709aa67b0) == 0xdaf08329bf64efdc,
        0x4d8c50590561524du64 ^ 0xdaf08329bf64efdcu64 == 0x977cd370ba05bd91,
        square_bits(0xdaf08329bf64efdc) == 0x28fe131694223bca,
        0x977cd370ba05bd91u64 ^ 0x28fe131694223bcau64 == 0xbf82c0662e27865b,
        square_bits(0x28fe131694223bca) == 0x2bd704181e324a98,
        0xbf82c0662e27865bu64 ^ 0x2bd704181e324a98u64 == 0x9455c47e3015ccc3,
        square_bits(0x2bd704181e324a98) == 0x6be46fc311f45c80,
        0x9455c47e3015ccc3u64 ^ 0x6be46fc311f45c80u64 == 0xffb1abbd21e19043,
        square_bits(0x6be46fc311f45c80) == 0xdbb148a1ca50306c,
        0xffb1abbd21e19043u64 ^ 0xdbb148a1ca50306cu64 == 0x2400e31cebb1a02f,
        square_bits(0xdbb148a1ca50306c) == 0x3df5a61ab3c6b80a,
        0x2400e31cebb1a02fu64 ^ 0x3df5a61ab3c6b80au64 == 0x19f5450658771825,
        square_bits(0x3df5a61ab3c6b80a) == 0x356956b9e89c1de8,
        0x19f5450658771825u64 ^ 0x356956b9e89c1de8u64 == 0x2c9c13bfb0eb05cd,
        square_bits(0x356956b9e89c1de8) == 0x22ea9b8aab8be59b,
        0x2c9c13bfb0eb05cdu64 ^ 0x22ea9b8aab8be59bu64 == 0xe7688351b60e056,
        square_bits(0x22ea9b8aab8be59b) == 0x282e5aef89a087e9,
        0xe7688351b60e056u64 ^ 0x282e5aef89a087e9u64 == 0x2658d2da92c067bf,
        square_bits(0x282e5aef89a087e9) == 0x2a812f1dedbe4f46,
        0x2658d2da92c067bfu64 ^ 0x2a812f1dedbe4f46u64 == 0xcd9fdc77f7e28f9,
        square_bits(0x2a812f1dedbe4f46) == 0x3efb854f7b520c7f,
        0xcd9fdc77f7e28f9u64 ^ 0x3efb854f7b520c7fu64 == 0x32227888042c2486,
        square_bits(0x3efb854f7b520c7f) == 0x655e10b5c1faa252,
        0x32227888042c2486u64 ^ 0x655e10b5c1faa252u64 == 0x577c683dc5d686d4,
        square_bits(0x655e10b5c1faa252) == 0x8dabf9585f02a7b4,
        0x577c683dc5d686d4u64 ^ 0x8dabf9585f02a7b4u64 == 0xdad791659ad42160,
        square_bits(0x8dabf9585f02a7b4) == 0xd638aab445cfe88a,
        0xdad791659ad42160u64 ^ 0xd638aab445cfe88au64 == 0xcef3bd1df1bc9ea,
        square_bits(0xd638aab445cfe88a) == 0x7acd2193feeaf6b5,
        0xcef3bd1df1bc9eau64 ^ 0x7acd2193feeaf6b5u64 == 0x76221a4221f13f5f,
        square_bits(0x7acd2193feeaf6b5) == 0x94ff232f39099e7d,
        0x76221a4221f13f5fu64 ^ 0x94ff232f39099e7du64 == 0xe2dd396d18f8a122,
        square_bits(0x94ff232f39099e7d) == 0xdff600462d237e0c,
        0xe2dd396d18f8a122u64 ^ 0xdff600462d237e0cu64 == 0x3d2b392b35dbdf2e,
        square_bits(0xdff600462d237e0c) == 0x685102d91555b1cd,
        0x3d2b392b35dbdf2eu64 ^ 0x685102d91555b1cdu64 == 0x557a3bf2208e6ee3,
        square_bits(0x685102d91555b1cd) == 0xdbd0ba0a456a3d91,
        0x557a3bf2208e6ee3u64 ^ 0xdbd0ba0a456a3d91u64 == 0x8eaa81f865e45372,
        square_bits(0xdbd0ba0a456a3d91) == 0x7da17f42b4fd47ec,
        0x8eaa81f865e45372u64 ^ 0x7da17f42b4fd47ecu64 == 0xf30bfebad119149e,
        square_bits(0x7da17f42b4fd47ec) == 0x857df94bd013e427,
        0xf30bfebad119149eu64 ^ 0x857df94bd013e427u64 == 0x767607f1010af0b9,
        square_bits(0x857df94bd013e427) == 0x90aac16955cab2f8,
        0x767607f1010af0b9u64 ^ 0x90aac16955cab2f8u64 == 0xe6dcc69854c04241,
        square_bits(0x90aac16955cab2f8) == 0xca17faef351e8fc1,
        0xe6dcc69854c04241u64 ^ 0xca17faef351e8fc1u64 == 0x2ccb3c7761decd80,
        square_bits(0xca17faef351e8fc1) == 0x73bd1b9441fe4b47,
        0x2ccb3c7761decd80u64 ^ 0x73bd1b9441fe4b47u64 == 0x5f7627e3202086c7,
        square_bits(0x73bd1b9441fe4b47) == 0xd770e53f0df4cabe,
        0x5f7627e3202086c7u64 ^ 0xd770e53f0df4cabeu64 == 0x8806c2dc2dd44c79,
        square_bits(0xd770e53f0df4cabe) == 0x6a9792174def3512,
        0x8806c2dc2dd44c79u64 ^ 0x6a9792174def3512u64 == 0xe29150cb603b796b,
        square_bits(0x6a9792174def3512) == 0xcafb8e94de7d1bd8,
        0xe29150cb603b796bu64 ^ 0xcafb8e94de7d1bd8u64 == 0x286ade5fbe4662b3,
        square_bits(0xcafb8e94de7d1bd8) == 0x27ff14e0c65f8bb1,
        0x286ade5fbe4662b3u64 ^ 0x27ff14e0c65f8bb1u64 == 0xf95cabf7819e902,
        square_bits(0x27ff14e0c65f8bb1) == 0x3dd411525af25901,
        0xf95cabf7819e902u64 ^ 0x3dd411525af25901u64 == 0x3241dbed22ebb003,
        square_bits(0x3dd411525af25901) == 0x61283fb40a5bab6d,
        0x3241dbed22ebb003u64 ^ 0x61283fb40a5bab6du64 == 0x5369e45928b01b6e,
        square_bits(0x61283fb40a5bab6d) == 0xdc5f7b853444a2fa,
        0x5369e45928b01b6eu64 ^ 0xdc5f7b853444a2fau64 == 0x8f369fdc1cf4b994,
        square_bits(0xdc5f7b853444a2fa) == 0x6961bc1685b594ae,
        0x8f369fdc1cf4b994u64 ^ 0x6961bc1685b594aeu64 == 0xe65723ca99412d3a,
        square_bits(0x6961bc1685b594ae) == 0x9acb990cf1605e93,
        0xe65723ca99412d3au64 ^ 0x9acb990cf1605e93u64 == 0x7c9cbac6682173a9,
        square_bits(0x9acb990cf1605e93) == 0x88aa62b1cc8f462f,
        0x7c9cbac6682173a9u64 ^ 0x88aa62b1cc8f462fu64 == 0xf436d877a4ae3586,
        square_bits(0x88aa62b1cc8f462f) == 0x9696eaf8cc7eb314,
        0xf436d877a4ae3586u64 ^ 0x9696eaf8cc7eb314u64 == 0x62a0328f68d08692,
        square_bits(0x9696eaf8cc7eb314) == 0x8a8acf8f5fae008a,
        0x62a0328f68d08692u64 ^ 0x8a8acf8f5fae008au64 == 0xe82afd00377e8618,
        square_bits(0x8a8acf8f5fae008a) == 0xd7ff82ff77018719,
        0xe82afd00377e8618u64 ^ 0xd7ff82ff77018719u64 == 0x3fd57fff407f0101,
        square_bits(0xd7ff82ff77018719) == 0x7fd50000807e0107,
        0x3fd57fff407f0101u64 ^ 0x7fd50000807e0107u64 == 0x40007fffc0010006,
        square_bits(0x7fd50000807e0107) == 0x80007fff0001000e,
        0x40007fffc0010006u64 ^ 0x80007fff0001000eu64 == 0xc0000000c0000008,
        square_bits(0x80007fff0001000e) == 0xc0000000c0000009,
        0xc0000000c0000008u64 ^ 0xc0000000c0000009u64 == 0x1,
{
}

/// Some element has trace one.
proof fn trace_witness()
    ensures
        trace(0x2000000000000000) == 1,
{
    witness_conjugates();
    xor_zero(0x2000000000000000);
    let w: u64 = 0x2000000000000000;
    assert(frobenius(w, 0) == w);
    assert(partial_trace(w, 0) == 0);
    assert(partial_trace(w, 1) == w);
    square_is_bits(0x2000000000000000);
    assert(frobenius(w, 1) == 0x6c00000000000000);
    assert(partial_trace(w, 2) == 0x4c00000000000000);
    square_is_bits(0x6c00000000000000);
    assert(frobenius(w, 2) == 0xdb7000000000001b);
    assert(partial_trace(w, 3) == 0x977000000000001b);
    square_is_bits(0xdb7000000000001b);
    assert(frobenius(w, 3) == 0x6db6c70000000104);
    assert(partial_trace(w, 4) == 0xfac6c7000000011f);
    square_is_bits(0x6db6c70000000104);
    assert(frobenius(w, 4) == 0xdb6db6db71c6000b);
    assert(partial_trace(w, 5) == 0x21ab71db71c60114);
    square_is_bits(0xdb6db6db71c6000b);
    assert(frobenius(w, 5) == 0x78b78b79b6db6db3);
    assert(partial_trace(w, 6) == 0x591cfaa2c71d6ca7);
    square_is_bits(0x78b78b79b6db6db3);
    assert(frobenius(w, 6) == 0x84d2e784d2e784c5);
    assert(partial_trace(w, 7) == 0xddce1d2615fae862);
    square_is_bits(0x84d2e784d2e784c5);
    assert(frobenius(w, 7) == 0x90b33f7e5dd191fb);
    assert(partial_trace(w, 8) == 0x4d7d2258482b7999);
    square_is_bits(0x90b33f7e5dd191fb);
    assert(frobenius(w, 8) == 0xca57e67631079503);
    assert(partial_trace(w, 9) == 0x872ac42e792cec9a);
    square_is_bits(0xca57e67631079503);
    assert(frobenius(w, 9) == 0x73acaad55cccc698);
    assert(partial_trace(w, 10) == 0xf4866efb25e02a02);
    square_is_bits(0x73acaad55cccc698);
    assert(frobenius(w, 10) == 0xd621fb26fabf2bf0);
    assert(partial_trace(w, 11) == 0x22a795dddf5f01f2);
    square_is_bits(0xd621fb26fabf2bf0);
    assert(frobenius(w, 11) == 0x3f98294905f2389d);
    assert(partial_trace(w, 12) == 0x1d3fbc94daad396f);
    square_is_bits(0x3f98294905f2389d);
    assert(frobenius(w, 12) == 0x701088c46f9af78a);
    assert(partial_trace(w, 13) == 0x6d2f3450b537cee5);
    square_is_bits(0x701088c46f9af78a);
    assert(frobenius(w, 13) == 0xd3555a4293d231ef);
    assert(partial_trace(w, 14) == 0xbe7a6e1226e5ff0a);
    square_is_bits(0xd3555a4293d231ef);
    assert(frobenius(w, 14) == 0x2a73fbaea8ace478);
    assert(partial_trace(w, 15) == 0x940995bc8e491b72);
    square_is_bits(0x2a73fbaea8ace478);
    assert(frobenius(w, 15) == 0x2eed832055a1be5c);
    assert(partial_trace(w, 16) == 0xbae4169cdbe8a52e);
    square_is_bits(0x2eed832055a1be5c);
    assert(frobenius(w, 16) == 0x7a0a5f6c85237d50);
    assert(partial_trace(w, 17) == 0xc0ee49f05ecbd87e);
    square_is_bits(0x7a0a5f6c85237d50);
    assert(frobenius(w, 17) == 0x81bd02a8b957ca6b);
    assert(partial_trace(w, 18) == 0x41534b58e79c1215);
    square_is_bits(0x81bd02a8b957ca6b);
    assert(frobenius(w, 18) == 0x855ca17e502ebedf);
    assert(partial_trace(w, 19) == 0xc40fea26b7b2acca);
    square_is_bits(0x855ca17e502ebedf);
    assert(frobenius(w, 19) == 0xd0aaa822e94e9113);
    assert(partial_trace(w, 20) == 0x14a542045efc3dd9);
    square_is_bits(0xd0aaa822e94e9113);
    assert(frobenius(w, 20) == 0x3f47bafeebc16d28);
    assert(partial_trace(w, 21) == 0x2be2f8fab53d50f1);
    square_is_bits(0x3f47bafeebc16d28);
    assert(frobenius(w, 21) == 0x2443e1c0a5fa045c);
    assert(partial_trace(w, 22) == 0xfa1193a10c754ad);
    square_is_bits(0x2443e1c0a5fa045c);
    assert(frobenius(w, 22) == 0x29a0e5341c0c6150);
    assert(partial_trace(w, 23) == 0x2601fc0e0ccb35fd);
    square_is_bits(0x29a0e5341c0c6150);
    assert(frobenius(w, 23) == 0x6b8dac5709aa67b0);
    assert(partial_trace(w, 24) == 0x4d8c50590561524d);
    square_is_bits(0x6b8dac5709aa67b0);
    assert(frobenius(w, 24) == 0xdaf08329bf64efdc);
    assert(partial_trace(w, 25) == 0x977cd370ba05bd91);
    square_is_bits(0xdaf08329bf64efdc);
    assert(frobenius(w, 25) == 0x28fe131694223bca);
    assert(partial_trace(w, 26) == 0xbf82c0662e27865b);
    square_is_bits(0x28fe131694223bca);
    assert(frobenius(w, 26) == 0x2bd704181e324a98);
    assert(partial_trace(w, 27) == 0x9455c47e3015ccc3);
    square_is_bits(0x2bd704181e324a98);
    assert(frobenius(w, 27) == 0x6be46fc311f45c80);
    assert(partial_trace(w, 28) == 0xffb1abbd21e19043);
    square_is_bits(0x6be46fc311f45c80);
    assert(frobenius(w, 28) == 0xdbb148a1ca50306c);
    assert(partial_trace(w, 29) == 0x2400e31cebb1a02f);
    square_is_bits(0xdbb148a1ca50306c);
    assert(frobenius(w, 29) == 0x3df5a61ab3c6b80a);
    assert(partial_trace(w, 30) == 0x19f5450658771825);
    square_is_bits(0x3df5a61ab3c6b80a);
    assert(frobenius(w, 30) == 0x356956b9e89c1de8);
    assert(partial_trace(w, 31) == 0x2c9c13bfb0eb05cd);
    square_is_bits(0x356956b9e89c1de8);
    assert(frobenius(w, 31) == 0x22ea9b8aab8be59b);
    assert(partial_trace(w, 32) == 0xe7688351b60e056);
    square_is_bits(0x22ea9b8aab8be59b);
    assert(frobenius(w, 32) == 0x282e5aef89a087e9);
    assert(partial_trace(w, 33) == 0x2658d2da92c067bf);
    square_is_bits(0x282e5aef89a087e9);
    assert(frobenius(w, 33) == 0x2a812f1dedbe4f46);
    assert(partial_trace(w, 34) == 0xcd9fdc77f7e28f9);
    square_is_bits(0x2a812f1dedbe4f46);
    assert(frobenius(w, 34) == 0x3efb854f7b520c7f);
    assert(partial_trace(w, 35) == 0x32227888042c2486);
    square_is_bits(0x3efb854f7b520c7f);
    assert(frobenius(w, 35) == 0x655e10b5c1faa252);
    assert(partial_trace(w, 36) == 0x577c683dc5d686d4);
    square_is_bits(0x655e10b5c1faa252);
    assert(frobenius(w, 36) == 0x8dabf9585f02a7b4);
    assert(partial_trace(w, 37) == 0xdad791659ad42160);
    square_is_bits(0x8dabf9585f02a7b4);
    assert(frobenius(w, 37) == 0xd638aab445cfe88a);
    assert(partial_trace(w, 38) == 0xcef3bd1df1bc9ea);
    square_is_bits(0xd638aab445cfe88a);
    assert(frobenius(w, 38) == 0x7acd2193feeaf6b5);
    assert(partial_trace(w, 39) == 0x76221a4221f13f5f);
    square_is_bits(0x7acd2193feeaf6b5);
    assert(frobenius(w, 39) == 0x94ff232f39099e7d);
    assert(partial_trace(w, 40) == 0xe2dd396d18f8a122);
    square_is_bits(0x94ff232f39099e7d);
    assert(frobenius(w, 40) == 0xdff600462d237e0c);
    assert(partial_trace(w, 41) == 0x3d2b392b35dbdf2e);
    square_is_bits(0xdff600462d237e0c);
    assert(frobenius(w, 41) == 0x685102d91555b1cd);
    assert(partial_trace(w, 42) == 0x557a3bf2208e6ee3);
    square_is_bits(0x685102d91555b1cd);
    assert(frobenius(w, 42) == 0xdbd0ba0a456a3d91);
    assert(partial_trace(w, 43) == 0x8eaa81f865e45372);
    square_is_bits(0xdbd0ba0a456a3d91);
    assert(frobenius(w, 43) == 0x7da17f42b4fd47ec);
    assert(partial_trace(w, 44) == 0xf30bfebad119149e);
    square_is_bits(0x7da17f42b4fd47ec);
    assert(frobenius(w, 44) == 0x857df94bd013e427);
    assert(partial_trace(w, 45) == 0x767607f1010af0b9);
    square_is_bits(0x857df94bd013e427);
    assert(frobenius(w, 45) == 0x90aac16955cab2f8);
    assert(partial_trace(w, 46) == 0xe6dcc69854c04241);
    square_is_bits(0x90aac16955cab2f8);
    assert(frobenius(w, 46) == 0xca17faef351e8fc1);
    assert(partial_trace(w, 47) == 0x2ccb3c7761decd80);
    square_is_bits(0xca17faef351e8fc1);
    assert(frobenius(w, 47) == 0x73bd1b9441fe4b47);
    assert(partial_trace(w, 48) == 0x5f7627e3202086c7);
    square_is_bits(0x73bd1b9441fe4b47);
    assert(frobenius(w, 48) == 0xd770e53f0df4cabe);
    assert(partial_trace(w, 49) == 0x8806c2dc2dd44c79);
    square_is_bits(0xd770e53f0df4cabe);
    assert(frobenius(w, 49) == 0x6a9792174def3512);
    assert(partial_trace(w, 50) == 0xe29150cb603b796b);
    square_is_bits(0x6a9792174def3512);
    assert(frobenius(w, 50) == 0xcafb8e94de7d1bd8);
    assert(partial_trace(w, 51) == 0x286ade5fbe4662b3);
    square_is_bits(0xcafb8e94de7d1bd8);
    assert(frobenius(w, 51) == 0x27ff14e0c65f8bb1);
    assert(partial_trace(w, 52) == 0xf95cabf7819e902);
    square_is_bits(0x27ff14e0c65f8bb1);
    assert(frobenius(w, 52) == 0x3dd411525af25901);
    assert(partial_trace(w, 53) == 0x3241dbed22ebb003);
    square_is_bits(0x3dd411525af25901);
    assert(frobenius(w, 53) == 0x61283fb40a5bab6d);
    assert(partial_trace(w, 54) == 0x5369e45928b01b6e);
    square_is_bits(0x61283fb40a5bab6d);
    assert(frobenius(w, 54) == 0xdc5f7b853444a2fa);
    assert(partial_trace(w, 55) == 0x8f369fdc1cf4b994);
    square_is_bits(0xdc5f7b853444a2fa);
    assert(frobenius(w, 55) == 0x6961bc1685b594ae);
    assert(partial_trace(w, 56) == 0xe65723ca99412d3a);
    square_is_bits(0x6961bc1685b594ae);
    assert(frobenius(w, 56) == 0x9acb990cf1605e93);
    assert(partial_trace(w, 57) == 0x7c9cbac6682173a9);
    square_is_bits(0x9acb990cf1605e93);
    assert(frobenius(w, 57) == 0x88aa62b1cc8f462f);
    assert(partial_trace(w, 58) == 0xf436d877a4ae3586);
    square_is_bits(0x88aa62b1cc8f462f);
    assert(frobenius(w, 58) == 0x9696eaf8cc7eb314);
    assert(partial_trace(w, 59) == 0x62a0328f68d08692);
    square_is_bits(0x9696eaf8cc7eb314);
    assert(frobenius(w, 59) == 0x8a8acf8f5fae008a);
    assert(partial_trace(w, 60) == 0xe82afd00377e8618);
    square_is_bits(0x8a8acf8f5fae008a);
    assert(frobenius(w, 60) == 0xd7ff82ff77018719);
    assert(partial_trace(w, 61) == 0x3fd57fff407f0101);
    square_is_bits(0xd7ff82ff77018719);
    assert(frobenius(w, 61) == 0x7fd50000807e0107);
    assert(partial_trace(w, 62) == 0x40007fffc0010006);
    square_is_bits(0x7fd50000807e0107);
    assert(frobenius(w, 62) == 0x80007fff0001000e);
    assert(partial_trace(w, 63) == 0xc0000000c0000008);
    square_is_bits(0x80007fff0001000e);
    assert(frobenius(w, 63) == 0xc0000000c0000009);
    assert(partial_trace(w, 64) == 0x1);
}

/// The trace form is nondegenerate: some `x^k` tells a nonzero element from zero.
pub proof fn trace_separates(d: u64)
    requires
        d != 0,
    ensures
        exists|k: nat| k < 64 && trace(product(#[trigger] (1u64 << (k as u64)), d)) != 0,
{
    if forall|k: nat| k < 64 ==> trace(product(#[trigger] (1u64 << (k as u64)), d)) == 0 {
        let f = |x: u64| trace(product(x, d));
        let g = |x: u64| 0u64;
        xor_zero(0);
        assert forall|x: u64, y: u64| #![trigger f(x ^ y)] f(x ^ y) == f(x) ^ f(y) by {
            product_add_left(x, y, d);
            trace_add(product(x, d), product(y, d));
        }
        assert forall|i: nat| i < 64 implies #[trigger] f(1u64 << (i as u64)) == g(
            1u64 << (i as u64),
        ) by {
            assert(trace(product(1u64 << (i as u64), d)) == 0);
        }
        let w = 0x2000000000000000u64;
        let b = product(w, inverse(d));
        additive_ext(f, g, b);
        inverse_product(d);
        product_assoc(w, inverse(d), d);
        product_comm(inverse(d), d);
        product_one(w);
        trace_witness();
    }
}

/// The product is that of a field: it is commutative and associative, distributes
/// over the sum, has one as its unit and no divisors of zero. Multiplying by two
/// shifts by one bit and folds the bit that falls out back in.
pub proof fn field_laws(x: u64, y: u64, z: u64)
    ensures
        product(x, y) == product(y, x),
        product(product(x, y), z) == product(x, product(y, z)),
        product(x, y ^ z) == product(x, y) ^ product(x, z),
        product(1, x) == x,
        product(2, x) == (x << 1) ^ if x >> 63 == 1 {
            0x1bu64
        } else {
            0u64
        },
        x != 0 && y != 0 ==> product(x, y) != 0,
{
    product_comm(x, y);
    product_assoc(x, y, z);
    product_add_right(x, y, z);
    product_one(x);
    product_comm(x, 1);
    product_comm(2, x);
    product_unit(x, 1);
    assert(1u64 << 1u64 == 2u64) by (bit_vector);
    reveal_with_fuel(shifted, 2);
    if x != 0 && y != 0 && product(x, y) == 0 {
        no_zero_divisors(x, y);
    }
}

/// The element with all bits set, squared.
pub proof fn square_of_all_ones()
    ensures
        product(u64::MAX, u64::MAX) == 0x5555_5555_5555_5513,
{
    square_is_bits(u64::MAX);
    assert(square_bits(0xffff_ffff_ffff_ffff) == 0x5555_5555_5555_5513) by (bit_vector);
}

} // verus!
