//! Decoding of syndrome sketches over the binary field.

use vstd::prelude::*;
use super::algebraic::{gf64_mul, AlgebraicError};
use super::field::{
    bit, inverse, inverse_product, no_zero_divisors, partial_trace, partial_trace_step, power,
    power_add, product, product_add_left, product_add_right, product_assoc, product_comm,
    product_exchange, product_one, product_zero, square, square_add, trace, trace_add, trace_is_bit,
    trace_separates, xor_assoc, xor_cancel, xor_comm, xor_exchange, xor_self, xor_zero,
};
use super::recurrence::{
    corrected, discrepancy, discrepancy_corrected, discrepancy_push, failure_forces_length,
    generates, is_power_sums, locator_generates, normalized, power_sum, power_sum_square,
    recurrence_is_locator, recurrence_of, shortest, shortest_unique,
};
use super::quadratic::{artin_schreier, solve_quadratic_form};
use super::splitting::{cofactor_splits, divisor_splits, select, select_contains, select_partition};
use super::polynomial::{
    coefficient, divided, divides, divides_combination, divides_remainder, divides_scaled,
    divides_scaling, divides_self, eval, eval_concat, eval_drop_last, eval_padded_sum, eval_push,
    eval_scaled, eval_squared, eval_sum, eval_zero, exact_division, from_roots, from_roots_facts,
    is_zero, monic, padded_sum, root_product, root_product_push, root_product_zero, scaled, splits,
    squared, sum, trimmed, zeros,
};
use super::search_laws::root_search_unique;

verus! {

/// Number of bits of a field element.
pub const FIELD_BITS: usize = 64;

/// Factoring trials with pseudo-random parameters.
pub const MIXED_FACTOR_TRIALS: usize = 8;

/// All factoring trials: the pseudo-random ones, then one per basis element.
pub const FACTOR_TRIALS: usize = 72;

/// The first pseudo-random factoring parameter.
pub const FACTOR_PARAMETER_SEED: u64 = 0x9e37_79b9_7f4a_7c15;

/// Squarings in one trace computation.
pub const TRACE_SQUARES: usize = 63;

/// Work that one call of the root finder may spend.
pub const MAX_FACTOR_WORK: usize = 8_000_000;

/// Coefficients of a polynomial, the constant term first.
pub type Polynomial = Vec<u64>;

/// The inverse of a nonzero field element.
pub fn gf64_inv(value: u64) -> (result: Option<u64>)
    ensures
        result is None <==> value == 0,
        result matches Some(r) ==> r == inverse(value) && product(value, r) == 1,
{
    if value == 0 {
        return None;
    }
    // a^(2^64-2), using a fixed square-and-multiply schedule.
    let mut result: u64 = 1;
    let exponent: u64 = u64::MAX - 1;
    let mut bit: u32 = 64;
    proof {
        assert(power(value, 0) == 1);
    }
    while bit > 0
        invariant
            bit <= 64,
            exponent == 0xffff_ffff_ffff_fffe,
            bit == 64 ==> result == 1,
            bit < 64 ==> result == power(value, (exponent >> (bit as u64)) as nat),
        decreases bit,
    {
        let ghost above: nat = if bit == 64 {
            0
        } else {
            (exponent >> (bit as u64)) as nat
        };
        bit = bit - 1;
        result = gf64_mul(result, result);
        proof {
            exponent_bits(bit as u64);
            power_add(value, above, above);
        }
        if bit != 0 {
            result = gf64_mul(result, value);
        }
    }
    proof {
        exponent_bits(0);
        inverse_product(value);
    }
    Some(result)
}

/// All bits of the inversion exponent but the lowest are set.
proof fn exponent_bits(k: u64)
    by (bit_vector)
    requires
        k < 64,
    ensures
        k == 63 ==> 0xffff_ffff_ffff_fffeu64 >> k == 1,
        0 < k < 63 ==> 0xffff_ffff_ffff_fffeu64 >> k == 2 * (0xffff_ffff_ffff_fffeu64 >> ((k
            + 1) as u64)) + 1,
        0xffff_ffff_ffff_fffeu64 >> 0 == 2 * (0xffff_ffff_ffff_fffeu64 >> 1),
        0xffff_ffff_ffff_fffeu64 >> 0 == 0xffff_ffff_ffff_fffeu64,
{
}

/// Removes leading zeros.
pub fn trim(poly: &mut Polynomial)
    ensures
        trimmed(final(poly)@),
        final(poly)@.is_prefix_of(old(poly)@),
        forall|i: int| final(poly).len() <= i < old(poly).len() ==> old(poly)@[i] == 0,
        forall|x: u64| #[trigger] eval(final(poly)@, x) == eval(old(poly)@, x),
{
    let ghost start = poly@;
    while poly.len() > 0 && poly[poly.len() - 1] == 0
        invariant
            poly@.is_prefix_of(start),
            forall|i: int| poly.len() <= i < start.len() ==> start[i] == 0,
            forall|x: u64| #[trigger] eval(poly@, x) == eval(start, x),
        decreases poly.len(),
    {
        let ghost before = poly@;
        poly.pop();
        proof {
            assert(poly@ =~= before.drop_last());
            assert forall|x: u64| #[trigger] eval(poly@, x) == eval(start, x) by {
                eval_drop_last(before, x);
            }
        }
    }
}

/// Divides a polynomial by its leading coefficient.
pub fn make_monic(poly: &mut Polynomial) -> (result: Option<()>)
    ensures
        result is None <==> old(poly).len() == 0 || old(poly)@.last() == 0,
        result is None ==> final(poly)@ == old(poly)@,
        result is Some ==> final(poly)@ == scaled(inverse(old(poly)@.last()), old(poly)@) && monic(
            final(poly)@,
        ),
{
    let ghost start = poly@;
    if poly.len() == 0 {
        return None;
    }
    let leading: u64 = poly[poly.len() - 1];
    if leading == 1 {
        proof {
            inverse_product(1);
            product_one(inverse(1));
            assert forall|i: int| 0 <= i < start.len() implies product(inverse(1), start[i])
                == start[i] by {
                product_one(start[i]);
            }
            assert(poly@ =~= scaled(inverse(1), start));
        }
        return Some(());
    }
    let inv: u64 = match gf64_inv(leading) {
        Some(inv) => inv,
        None => return None,
    };
    let mut index: usize = 0;
    while index < poly.len()
        invariant
            index <= poly.len(),
            poly.len() == start.len(),
            forall|i: int| 0 <= i < index ==> #[trigger] poly@[i] == product(inv, start[i]),
            forall|i: int| index <= i < start.len() ==> poly@[i] == start[i],
        decreases poly.len() - index,
    {
        let value: u64 = gf64_mul(poly[index], inv);
        proof {
            product_comm(poly[index as int], inv);
        }
        poly.set(index, value);
        index = index + 1;
    }
    proof {
        assert(poly@ =~= scaled(inv, start));
        product_comm(leading, inv);
    }
    Some(())
}

/// The value after one division step: the leading term is replaced by lower ones.
proof fn division_step(
    value: Seq<u64>,
    rest: Seq<u64>,
    modulus: Seq<u64>,
    offset: nat,
    term: u64,
    x: u64,
)
    requires
        monic(modulus),
        value.len() > 0,
        term == value.last(),
        offset + modulus.len() == value.len(),
        rest.len() == value.len() - 1,
        forall|i: int| 0 <= i < offset ==> rest[i] == value[i],
        forall|i: int|
            0 <= i < modulus.len() - 1 ==> rest[#[trigger] (offset + i)] == value[offset + i]
                ^ product(term, modulus[i]),
    ensures
        eval(value, x) == eval(rest, x) ^ product(
            power(x, offset),
            product(term, eval(modulus, x)),
        ),
{
    let head = value.take(offset as int);
    let tail = value.skip(offset as int);
    let low = modulus.drop_last();
    let short = tail.drop_last();
    assert(value =~= head + tail);
    assert(tail.last() == term);
    assert(tail =~= short.push(term));
    assert(modulus =~= low.push(1));
    let mixed = sum(short, scaled(term, low));
    assert(rest =~= head + mixed) by {
        assert forall|i: int| 0 <= i < rest.len() implies rest[i] == (head + mixed)[i] by {
            if i >= offset {
                let j = i - offset;
                assert(rest[offset + j] == value[offset + j] ^ product(term, modulus[j]));
            }
        }
    }
    let w = power(x, offset);
    let v = power(x, low.len());
    eval_concat(head, tail, x);
    eval_concat(head, mixed, x);
    eval_push(short, term, x);
    eval_push(low, 1, x);
    eval_sum(short, scaled(term, low), x);
    eval_scaled(term, low, x);
    product_one(v);
    let e = eval(short, x);
    let l = product(term, eval(low, x));
    let t = product(term, v);
    product_add_right(term, eval(low, x), v);
    product_add_right(w, e, t);
    product_add_right(w, e, l);
    product_add_right(w, l, t);
    let h = eval(head, x);
    let (we, wl, wt) = (product(w, e), product(w, l), product(w, t));
    // h + (we + wt) = (h + (we + wl)) + (wl + wt)
    xor_assoc(h, we ^ wl, wl ^ wt);
    xor_assoc(we, wl, wl ^ wt);
    xor_cancel(wl, wt);
}

/// Prepending the quotient's next coefficient accounts for one division step.
proof fn quotient_step(
    value: u64,
    rest: u64,
    term: u64,
    q: Seq<u64>,
    m: u64,
    offset: nat,
    whole: u64,
    x: u64,
)
    requires
        value == rest ^ product(power(x, offset), product(term, m)),
        whole == value ^ product(power(x, offset + 1), product(eval(q, x), m)),
    ensures
        whole == rest ^ product(power(x, offset), product(eval(seq![term] + q, x), m)),
{
    let w = power(x, offset);
    let e = eval(q, x);
    assert((seq![term] + q).drop_first() =~= q);
    product_assoc(w, x, product(e, m));
    product_assoc(x, e, m);
    product_add_left(term, product(x, e), m);
    let a = product(term, m);
    let b = product(product(x, e), m);
    product_add_right(w, a, b);
    xor_assoc(rest, product(w, a), product(w, b));
}

/// Reduces a polynomial modulo a monic one.
pub fn poly_mod(modulus: &[u64], value: &mut Polynomial) -> (result: Option<()>)
    ensures
        result is Some <==> monic(modulus@),
        result is None ==> final(value)@ == old(value)@,
        result is Some ==> {
            &&& final(value).len() < modulus.len()
            &&& final(value).len() <= old(value).len()
            &&& trimmed(final(value)@)
            &&& exists|q: Seq<u64>|
                #![trigger divided(old(value)@, modulus@, q, final(value)@)]
                (q.len() == 0 || q.len() + modulus.len() == old(value).len() + 1) && divided(
                    old(value)@,
                    modulus@,
                    q,
                    final(value)@,
                )
        },
{
    if modulus.len() == 0 {
        return None;
    }
    let modulus_degree: usize = modulus.len() - 1;
    if modulus[modulus_degree] != 1 {
        return None;
    }
    let ghost start = value@;
    let ghost mut q = Seq::<u64>::empty();
    proof {
        assert forall|x: u64| #[trigger] eval(start, x) == eval(value@, x) ^ product(
            eval(q, x),
            eval(modulus@, x),
        ) by {
            product_zero(eval(modulus@, x));
            xor_zero(eval(value@, x));
        }
        if start.len() >= modulus.len() {
            assert forall|x: u64| #[trigger] eval(start, x) == eval(value@, x) ^ product(
                power(x, (value.len() - modulus_degree) as nat),
                product(eval(q, x), eval(modulus@, x)),
            ) by {
                product_zero(eval(modulus@, x));
                product_zero(power(x, (value.len() - modulus_degree) as nat));
                xor_zero(eval(value@, x));
            }
        }
    }
    while value.len() >= modulus.len()
        invariant
            modulus_degree == modulus.len() - 1,
            monic(modulus@),
            value.len() <= start.len(),
            start.len() < modulus.len() ==> value@ == start && q.len() == 0,
            start.len() >= modulus.len() ==> {
                &&& value.len() >= modulus_degree
                &&& q.len() + value.len() == start.len()
                &&& forall|x: u64| #[trigger]
                    eval(start, x) == eval(value@, x) ^ product(
                        power(x, (value.len() - modulus_degree) as nat),
                        product(eval(q, x), eval(modulus@, x)),
                    )
            },
        decreases value.len(),
    {
        let ghost before = value@;
        let term: u64 = value[value.len() - 1];
        value.pop();
        let offset: usize = value.len() - modulus_degree;
        if term != 0 {
            let mut index: usize = 0;
            while index < modulus_degree
                invariant
                    index <= modulus_degree,
                    modulus_degree == modulus.len() - 1,
                    offset + modulus_degree == value.len(),
                    value.len() == before.len() - 1,
                    term == before.last(),
                    forall|i: int| 0 <= i < offset ==> value@[i] == before[i],
                    forall|i: int|
                        0 <= i < index ==> value@[#[trigger] (offset + i)] == before[offset + i]
                            ^ product(term, modulus@[i]),
                    forall|i: int|
                        index <= i < modulus_degree ==> value@[#[trigger] (offset + i)]
                            == before[offset + i],
                decreases modulus_degree - index,
            {
                let coefficient: u64 = value[offset + index] ^ gf64_mul(term, modulus[index]);
                value.set(offset + index, coefficient);
                index = index + 1;
            }
        } else {
            proof {
                assert forall|i: int| 0 <= i < modulus_degree implies value@[#[trigger] (offset
                    + i)] == before[offset + i] ^ product(term, modulus@[i]) by {
                    product_zero(modulus@[i]);
                    xor_zero(before[offset + i]);
                }
            }
        }
        proof {
            let next = seq![term] + q;
            assert forall|x: u64| #[trigger] eval(start, x) == eval(value@, x) ^ product(
                power(x, offset as nat),
                product(eval(next, x), eval(modulus@, x)),
            ) by {
                division_step(before, value@, modulus@, offset as nat, term, x);
                quotient_step(
                    eval(before, x),
                    eval(value@, x),
                    term,
                    q,
                    eval(modulus@, x),
                    offset as nat,
                    eval(start, x),
                    x,
                );
            }
            q = next;
        }
    }
    let ghost rest = value@;
    trim(value);
    proof {
        assert forall|x: u64| #[trigger] eval(start, x) == product(
            eval(q, x),
            eval(modulus@, x),
        ) ^ eval(value@, x) by {
            assert(eval(value@, x) == eval(rest, x));
            let m = product(eval(q, x), eval(modulus@, x));
            product_one(m);
            product_zero(eval(modulus@, x));
            xor_comm(eval(rest, x), m);
            xor_zero(eval(rest, x));
            assert(power(x, 0) == 1);
        }
        assert(divided(start, modulus@, q, value@));
    }
    Some(())
}

/// Divides by a monic polynomial and drops the remainder.
pub fn poly_div(dividend: Polynomial, divisor: &[u64]) -> (result: Option<Polynomial>)
    ensures
        result is Some <==> monic(divisor@) && dividend.len() >= divisor.len(),
        result matches Some(quotient) ==> {
            &&& trimmed(quotient@)
            &&& quotient.len() + divisor.len() <= dividend.len() + 1
            &&& trimmed(dividend@) ==> quotient.len() + divisor.len() == dividend.len() + 1
                && quotient@.last() == dividend@.last()
            &&& exists|rest: Seq<u64>|
                #![trigger divided(dividend@, divisor@, quotient@, rest)]
                rest.len() < divisor.len() && divided(dividend@, divisor@, quotient@, rest)
        },
{
    if divisor.len() == 0 || divisor[divisor.len() - 1] != 1 || dividend.len() < divisor.len() {
        return None;
    }
    let ghost start = dividend@;
    let mut dividend: Polynomial = dividend;
    let divisor_degree: usize = divisor.len() - 1;
    let quotient_len: usize = dividend.len() - divisor_degree;
    let mut quotient: Polynomial = Vec::new();
    quotient.resize(quotient_len, 0);
    let ghost mut q = Seq::<u64>::empty();
    proof {
        assert forall|x: u64| #[trigger] eval(start, x) == eval(dividend@, x) ^ product(
            power(x, (dividend.len() - divisor_degree) as nat),
            product(eval(q, x), eval(divisor@, x)),
        ) by {
            product_zero(eval(divisor@, x));
            product_zero(power(x, (dividend.len() - divisor_degree) as nat));
            xor_zero(eval(dividend@, x));
        }
    }
    while dividend.len() >= divisor.len()
        invariant
            divisor_degree == divisor.len() - 1,
            monic(divisor@),
            divisor_degree <= dividend.len() <= start.len(),
            q.len() + dividend.len() == start.len(),
            quotient.len() == start.len() - divisor_degree,
            q =~= quotient@.skip(dividend.len() - divisor_degree),
            dividend.len() == start.len() ==> dividend@ == start,
            dividend.len() < start.len() ==> q.last() == start.last(),
            forall|x: u64| #[trigger]
                eval(start, x) == eval(dividend@, x) ^ product(
                    power(x, (dividend.len() - divisor_degree) as nat),
                    product(eval(q, x), eval(divisor@, x)),
                ),
        decreases dividend.len(),
    {
        let ghost before = dividend@;
        let ghost old_quotient = quotient@;
        let term: u64 = dividend[dividend.len() - 1];
        dividend.pop();
        let position: usize = dividend.len() - divisor_degree;
        quotient.set(position, term);
        if term != 0 {
            let mut index: usize = 0;
            while index < divisor_degree
                invariant
                    index <= divisor_degree,
                    divisor_degree == divisor.len() - 1,
                    position + divisor_degree == dividend.len(),
                    dividend.len() == before.len() - 1,
                    term == before.last(),
                    forall|i: int| 0 <= i < position ==> dividend@[i] == before[i],
                    forall|i: int|
                        0 <= i < index ==> dividend@[#[trigger] (position + i)] == before[position
                            + i] ^ product(term, divisor@[i]),
                    forall|i: int|
                        index <= i < divisor_degree ==> dividend@[#[trigger] (position + i)]
                            == before[position + i],
                decreases divisor_degree - index,
            {
                let coefficient: u64 = dividend[position + index] ^ gf64_mul(
                    term,
                    divisor[index],
                );
                dividend.set(position + index, coefficient);
                index = index + 1;
            }
        } else {
            proof {
                assert forall|i: int| 0 <= i < divisor_degree implies dividend@[#[trigger] (
                position + i)] == before[position + i] ^ product(term, divisor@[i]) by {
                    product_zero(divisor@[i]);
                    xor_zero(before[position + i]);
                }
            }
        }
        proof {
            let next = seq![term] + q;
            assert forall|x: u64| #[trigger] eval(start, x) == eval(dividend@, x) ^ product(
                power(x, position as nat),
                product(eval(next, x), eval(divisor@, x)),
            ) by {
                division_step(before, dividend@, divisor@, position as nat, term, x);
                quotient_step(
                    eval(before, x),
                    eval(dividend@, x),
                    term,
                    q,
                    eval(divisor@, x),
                    position as nat,
                    eval(start, x),
                    x,
                );
            }
            assert(next =~= quotient@.skip(position as int)) by {
                assert forall|i: int| 0 <= i < next.len() implies next[i] == quotient@.skip(
                    position as int,
                )[i] by {
                    if i > 0 {
                        assert(q[i - 1] == old_quotient.skip(before.len() - divisor_degree)[i - 1]);
                    }
                }
            }
            q = next;
        }
    }
    let ghost whole = quotient@;
    proof {
        assert(whole =~= q);
    }
    trim(&mut quotient);
    proof {
        let rest = dividend@;
        assert forall|x: u64| #[trigger] eval(start, x) == product(
            eval(quotient@, x),
            eval(divisor@, x),
        ) ^ eval(rest, x) by {
            assert(eval(quotient@, x) == eval(whole, x));
            let m = product(eval(q, x), eval(divisor@, x));
            product_one(m);
            xor_comm(eval(rest, x), m);
            assert(power(x, 0) == 1);
        }
        assert(divided(start, divisor@, quotient@, rest));
        if trimmed(start) {
            assert(whole.last() == start.last());
            if quotient.len() < whole.len() {
                assert(whole[whole.len() - 1] == 0);
            }
        }
    }
    Some(quotient)
}

/// A point where both polynomials vanish.
pub open spec fn common_root(left: Seq<u64>, right: Seq<u64>, x: u64) -> bool {
    eval(left, x) == 0 && eval(right, x) == 0
}

/// The monic greatest common divisor: it divides both polynomials, whatever
/// divides both divides it, and its roots are their common roots.
pub open spec fn is_gcd(left: Seq<u64>, right: Seq<u64>, g: Seq<u64>) -> bool {
    &&& monic(g)
    &&& divides(g, left)
    &&& divides(g, right)
    &&& forall|f: Seq<u64>|
        #![trigger divides(f, left), divides(f, right)]
        f.len() > 0 && f.last() != 0 && divides(f, left) && divides(f, right) ==> divides(f, g)
    &&& forall|x: u64| #[trigger] eval(g, x) == 0 <==> common_root(left, right, x)
}

/// Common divisors and common roots of one pair are those of another.
spec fn same_common(a: Seq<u64>, b: Seq<u64>, left: Seq<u64>, right: Seq<u64>) -> bool {
    &&& forall|f: Seq<u64>|
        #![trigger divides(f, left), divides(f, right)]
        f.len() > 0 && divides(f, left) && divides(f, right) ==> divides(f, a) && divides(f, b)
    &&& forall|f: Seq<u64>|
        #![trigger divides(f, a), divides(f, b)]
        f.len() > 0 && f.last() != 0 && divides(f, a) && divides(f, b) ==> divides(f, left)
            && divides(f, right)
    &&& forall|x: u64| #[trigger]
        common_root(left, right, x) <==> common_root(a, b, x)
}

proof fn gcd_step(
    a: Seq<u64>,
    b: Seq<u64>,
    left: Seq<u64>,
    right: Seq<u64>,
    monic_right: Seq<u64>,
    q: Seq<u64>,
    rest: Seq<u64>,
)
    requires
        same_common(a, b, left, right),
        right.len() > 0,
        right.last() != 0,
        monic_right == scaled(inverse(right.last()), right),
        right.len() <= left.len() <= u64::MAX,
        divided(left, monic_right, q, rest),
        rest.len() < right.len(),
        q.len() == 0 || q.len() + right.len() == left.len() + 1,
    ensures
        same_common(a, b, monic_right, rest),
{
    let c = right.last();
    let inv = inverse(c);
    inverse_product(c);
    assert forall|f: Seq<u64>|
        #![trigger divides(f, monic_right), divides(f, rest)]
        f.len() > 0 && divides(f, monic_right) && divides(f, rest) implies divides(f, a)
        && divides(f, b) by {
        divides_combination(f, left, monic_right, q, rest);
        divides_scaled(f, right, c, inv);
    }
    assert forall|f: Seq<u64>|
        #![trigger divides(f, a), divides(f, b)]
        f.len() > 0 && f.last() != 0 && divides(f, a) && divides(f, b) implies divides(
        f,
        monic_right,
    ) && divides(f, rest) by {
        assert(divides(f, left) && divides(f, right));
        divides_scaling(f, right, inv);
        divides_remainder(f, left, monic_right, q, rest);
    }
    assert forall|x: u64| #[trigger] common_root(monic_right, rest, x) <==> common_root(
        a,
        b,
        x,
    ) by {
        assert(common_root(left, right, x) <==> common_root(a, b, x));
        eval_scaled(inv, right, x);
        no_zero_divisors(inv, eval(right, x));
        assert(eval(left, x) == product(eval(q, x), eval(monic_right, x)) ^ eval(rest, x));
        product_zero(eval(q, x));
        xor_zero(eval(rest, x));
    }
}

/// The monic greatest common divisor of two polynomials.
pub fn poly_gcd(left: Polynomial, right: Polynomial) -> (result: Option<Polynomial>)
    requires
        trimmed(left@),
        trimmed(right@),
    ensures
        result is None <==> left.len() == 0 && right.len() == 0,
        result matches Some(g) ==> is_gcd(left@, right@, g@),
{
    let ghost a = left@;
    let ghost b = right@;
    let mut left: Polynomial = left;
    let mut right: Polynomial = right;
    if left.len() < right.len() {
        std::mem::swap(&mut left, &mut right);
    }
    while right.len() > 0
        invariant
            trimmed(left@),
            trimmed(right@),
            right.len() <= left.len(),
            left.len() == 0 <==> a.len() == 0 && b.len() == 0,
            same_common(a, b, left@, right@),
        decreases right.len(),
    {
        let ghost before_left = left@;
        let ghost before_right = right@;
        match make_monic(&mut right) {
            Some(_) => {},
            None => return None,
        }
        match poly_mod(&right, &mut left) {
            Some(_) => {},
            None => return None,
        }
        proof {
            let q = choose|q: Seq<u64>|
                #![trigger divided(before_left, right@, q, left@)]
                (q.len() == 0 || q.len() + right.len() == before_left.len() + 1) && divided(
                    before_left,
                    right@,
                    q,
                    left@,
                );
            gcd_step(a, b, before_left, before_right, right@, q, left@);
        }
        std::mem::swap(&mut left, &mut right);
    }
    let ghost last = left@;
    match make_monic(&mut left) {
        Some(_) => {},
        None => return None,
    }
    proof {
        let g = left@;
        let c = last.last();
        let inv = inverse(c);
        inverse_product(c);
        divides_self(g);
        divides_scaled(g, last, c, inv);
        assert(right@ =~= Seq::<u64>::empty());
        assert(divides(g, right@));
        assert forall|f: Seq<u64>|
            #![trigger divides(f, a), divides(f, b)]
            f.len() > 0 && f.last() != 0 && divides(f, a) && divides(f, b) implies divides(
            f,
            g,
        ) by {
            assert(divides(f, last));
            divides_scaling(f, last, inv);
        }
        assert forall|x: u64| #[trigger] eval(g, x) == 0 <==> common_root(a, b, x) by {
            eval_scaled(inv, last, x);
            no_zero_divisors(inv, eval(last, x));
            assert(common_root(last, right@, x) <==> common_root(a, b, x));
        }
    }
    Some(left)
}

/// Squares a polynomial.
pub fn poly_square(poly: &mut Polynomial) -> (result: Option<()>)
    ensures
        result is Some <==> 2 * old(poly).len() <= usize::MAX,
        result is None ==> final(poly)@ == old(poly)@,
        result is Some ==> final(poly)@ == squared(old(poly)@),
{
    if poly.len() == 0 {
        return Some(());
    }
    let doubled: usize = match poly.len().checked_mul(2) {
        Some(doubled) => doubled,
        None => return None,
    };
    let new_len: usize = doubled - 1;
    let mut result: Polynomial = Vec::new();
    result.resize(new_len, 0);
    let mut index: usize = 0;
    while index < poly.len()
        invariant
            index <= poly.len(),
            result.len() == new_len,
            new_len == 2 * poly.len() - 1,
            forall|i: int|
                0 <= i < new_len ==> #[trigger] result@[i] == if i % 2 == 0 && i / 2 < index {
                    square(poly@[i / 2])
                } else {
                    0
                },
        decreases poly.len() - index,
    {
        let value: u64 = gf64_mul(poly[index], poly[index]);
        result.set(2 * index, value);
        index = index + 1;
    }
    proof {
        assert(result@ =~= squared(poly@));
    }
    *poly = result;
    Some(())
}

/// A polynomial with its linear coefficient replaced.
pub open spec fn with_linear(p: Seq<u64>, c: u64) -> Seq<u64> {
    Seq::new(
        if p.len() < 2 {
            2
        } else {
            p.len()
        },
        |i: int|
            if i == 1 {
                c
            } else {
                coefficient(p, i)
            },
    )
}

/// Adding `c x` to a square, whose linear coefficient is zero.
proof fn eval_with_linear(p: Seq<u64>, c: u64, x: u64)
    ensures
        eval(with_linear(squared(p), c), x) == square(eval(p, x)) ^ product(c, x),
{
    let s = squared(p);
    let line = seq![0u64, c];
    assert(with_linear(s, c) =~= padded_sum(s, line)) by {
        assert forall|i: int| 0 <= i < with_linear(s, c).len() implies with_linear(s, c)[i]
            == padded_sum(s, line)[i] by {
            xor_zero(coefficient(s, i));
            if i == 1 {
                xor_zero(c);
            }
        }
    }
    eval_padded_sum(s, line, x);
    eval_squared(p, x);
    assert(line =~= seq![0u64].push(c));
    eval_push(seq![0u64], c, x);
    assert(is_zero(seq![0u64]));
    eval_zero(seq![0u64], x);
    assert(power(x, 1) == x) by {
        reveal_with_fuel(power, 2);
        product_one(x);
    }
    xor_zero(product(c, x));
}

/// One step of the trace computation: square, add `c x`, reduce.
pub open spec fn trace_step(modulus: Seq<u64>, c: u64, from: Seq<u64>, to: Seq<u64>) -> bool {
    &&& to.len() < modulus.len()
    &&& trimmed(to)
    &&& exists|q: Seq<u64>|
        #![trigger divided(with_linear(squared(from), c), modulus, q, to)]
        (q.len() == 0 || q.len() + modulus.len() == with_linear(squared(from), c).len() + 1)
            && divided(with_linear(squared(from), c), modulus, q, to)
}

/// `c x` and the results of repeated trace steps.
pub open spec fn trace_chain(modulus: Seq<u64>, c: u64, chain: Seq<Seq<u64>>) -> bool {
    &&& chain.len() > 0
    &&& chain[0] == seq![0u64, c]
    &&& forall|i: int|
        0 <= i < chain.len() - 1 ==> trace_step(modulus, c, #[trigger] chain[i], chain[i + 1])
}

/// The polynomial `c x + (c x)^2 + .. + (c x)^(2^63)` reduced by a monic
/// modulus. At a root of the modulus its value is the trace of `c` times the root.
pub fn trace_mod(modulus: &[u64], parameter: u64) -> (result: Option<Polynomial>)
    ensures
        result is Some ==> monic(modulus@),
        monic(modulus@) && 2 * modulus.len() <= usize::MAX ==> result is Some,
        result matches Some(t) ==> {
            &&& t.len() < modulus.len()
            &&& trimmed(t@)
            &&& exists|chain: Seq<Seq<u64>>| #[trigger]
                trace_chain(modulus@, parameter, chain) && chain.len() == 64 && chain[63] == t@
            &&& forall|r: u64|
                eval(modulus@, r) == 0 ==> #[trigger] eval(t@, r) == trace(product(parameter, r))
        },
{
    let mut result: Polynomial = Vec::new();
    result.push(0);
    result.push(parameter);
    let mut step: usize = 0;
    let ghost mut chain: Seq<Seq<u64>> = seq![result@];
    proof {
        assert(result@ =~= seq![0u64, parameter]);
        assert forall|r: u64| #[trigger] eval(result@, r) == partial_trace(
            product(parameter, r),
            1,
        ) by {
            assert(result@ =~= with_linear(squared(Seq::empty()), parameter));
            eval_with_linear(Seq::empty(), parameter, r);
            product_zero(0);
            partial_trace_step(product(parameter, r), 0);
        }
    }
    while step < TRACE_SQUARES
        invariant
            step <= TRACE_SQUARES,
            step == 0 ==> result.len() == 2,
            step > 0 ==> monic(modulus@) && result.len() < modulus.len() && trimmed(result@),
            chain.len() == step + 1,
            chain[step as int] == result@,
            trace_chain(modulus@, parameter, chain),
            forall|r: u64|
                eval(modulus@, r) == 0 ==> #[trigger] eval(result@, r) == partial_trace(
                    product(parameter, r),
                    (step + 1) as nat,
                ),
        decreases TRACE_SQUARES - step,
    {
        let ghost before = result@;
        match poly_square(&mut result) {
            Some(_) => {},
            None => return None,
        }
        if result.len() < 2 {
            result.resize(2, 0);
        }
        result.set(1, parameter);
        let ghost middle = result@;
        proof {
            assert(middle =~= with_linear(squared(before), parameter));
        }
        match poly_mod(modulus, &mut result) {
            Some(_) => {},
            None => return None,
        }
        proof {
            let q = choose|q: Seq<u64>|
                #![trigger divided(middle, modulus@, q, result@)]
                (q.len() == 0 || q.len() + modulus.len() == middle.len() + 1) && divided(
                    middle,
                    modulus@,
                    q,
                    result@,
                );
            assert(divided(with_linear(squared(before), parameter), modulus@, q, result@));
            assert(trace_step(modulus@, parameter, before, result@));
            assert forall|r: u64| eval(modulus@, r) == 0 implies #[trigger] eval(result@, r)
                == partial_trace(product(parameter, r), (step + 2) as nat) by {
                assert(eval(middle, r) == product(eval(q, r), eval(modulus@, r)) ^ eval(
                    result@,
                    r,
                ));
                product_zero(eval(q, r));
                xor_zero(eval(result@, r));
                eval_with_linear(before, parameter, r);
                assert(eval(before, r) == partial_trace(
                    product(parameter, r),
                    (step + 1) as nat,
                ));
                partial_trace_step(product(parameter, r), (step + 1) as nat);
            }
            let next = chain.push(result@);
            assert forall|i: int| 0 <= i < next.len() - 1 implies trace_step(
                modulus@,
                parameter,
                #[trigger] next[i],
                next[i + 1],
            ) by {
                if i < chain.len() - 1 {
                    assert(next[i] == chain[i] && next[i + 1] == chain[i + 1]);
                }
            }
            chain = next;
        }
        step = step + 1;
    }
    Some(result)
}

/// The next pseudo-random factoring parameter.
pub fn next_factor_parameter(state: u64) -> (result: u64)
    ensures
        result == next_parameter(state),
{
    let first: u64 = state ^ (state << 13);
    let second: u64 = first ^ (first >> 7);
    second ^ (second << 17)
}

/// One round of a 64-bit xorshift generator.
pub open spec fn next_parameter(state: u64) -> u64 {
    let first = state ^ (state << 13);
    let second = first ^ (first >> 7);
    second ^ (second << 17)
}

/// The work charged for one factoring trial.
pub fn factor_trial_cost(degree: usize) -> (result: Option<usize>)
    ensures
        result is Some <==> degree * degree * TRACE_SQUARES <= usize::MAX,
        result matches Some(cost) ==> cost == degree * degree * TRACE_SQUARES,
{
    let squared_degree: usize = match degree.checked_mul(degree) {
        Some(value) => value,
        None => {
            proof {
                assert(degree * degree * 63 >= degree * degree) by (nonlinear_arith)
                    requires
                        degree >= 0,
                ;
            }
            return None
        },
    };
    squared_degree.checked_mul(TRACE_SQUARES)
}

/// One trial leaves a split polynomial whole only where all traces agree.
proof fn unsplit_agrees(
    poly: Seq<u64>,
    roots: Seq<u64>,
    t: Seq<u64>,
    g: Seq<u64>,
    parameter: u64,
)
    requires
        splits(poly, roots),
        is_gcd(poly, t, g),
        poly.len() <= 0xffff_ffff_ffff_ffff,
        forall|r: u64|
            eval(poly, r) == 0 ==> #[trigger] eval(t, r) == trace(product(parameter, r)),
        !(1 < g.len() < poly.len()),
    ensures
        forall|i: int, j: int|
            #![trigger roots[i], roots[j]]
            0 <= i < roots.len() && 0 <= j < roots.len() ==> trace(product(parameter, roots[i]))
                == trace(product(parameter, roots[j])),
{
    divisor_splits(poly, roots, g);
    select_partition(roots, g);
    let zero = select(roots, g, true);
    let other = select(roots, g, false);
    assert forall|i: int| 0 <= i < roots.len() implies (eval(g, #[trigger] roots[i]) == 0 <==> trace(
        product(parameter, roots[i]),
    ) == 0) by {
        assert(eval(poly, roots[i]) == 0);
        assert(eval(t, roots[i]) == trace(product(parameter, roots[i])));
        assert(eval(g, roots[i]) == 0 <==> common_root(poly, t, roots[i]));
    }
    assert forall|i: int, j: int|
        #![trigger roots[i], roots[j]]
        0 <= i < roots.len() && 0 <= j < roots.len() implies trace(product(parameter, roots[i]))
        == trace(product(parameter, roots[j])) by {
        trace_is_bit(product(parameter, roots[i]));
        trace_is_bit(product(parameter, roots[j]));
        if zero.len() == 0 {
            if eval(g, roots[i]) == 0 {
                select_contains(roots, g, true, i);
            }
            if eval(g, roots[j]) == 0 {
                select_contains(roots, g, true, j);
            }
        } else {
            assert(other.len() == 0);
            if eval(g, roots[i]) != 0 {
                select_contains(roots, g, false, i);
            }
            if eval(g, roots[j]) != 0 {
                select_contains(roots, g, false, j);
            }
        }
    }
}

/// Two distinct elements are told apart by one of the basis parameters.
proof fn basis_separates(a: u64, b: u64)
    requires
        a != b,
    ensures
        exists|k: nat| k < 64 && #[trigger] basis_trace(k, a) != basis_trace(k, b),
{
    xor_cancel(a, b);
    trace_separates(a ^ b);
    let k = choose|k: nat| k < 64 && trace(product(#[trigger] (1u64 << (k as u64)), a ^ b)) != 0;
    let u = 1u64 << (k as u64);
    product_add_right(u, a, b);
    trace_add(product(u, a), product(u, b));
    xor_self(trace(product(u, a)));
    assert(basis_trace(k, a) != basis_trace(k, b));
}

/// The trace of an element scaled by the `k`-th basis element.
pub open spec fn basis_trace(k: nat, r: u64) -> u64 {
    trace(product(1u64 << (k as u64), r))
}

/// The parameter of a factoring trial: mixed ones first, then a basis.
#[verifier::opaque]
pub open spec fn factor_parameter(trial: nat) -> u64
    decreases trial,
{
    if trial >= MIXED_FACTOR_TRIALS {
        1u64 << ((trial - MIXED_FACTOR_TRIALS) as u64)
    } else if trial == 0 {
        FACTOR_PARAMETER_SEED
    } else {
        next_parameter(factor_parameter((trial - 1) as nat))
    }
}

/// The common divisor of a polynomial and the trace polynomial of a parameter.
#[verifier::opaque]
pub open spec fn divisor_for(poly: Seq<u64>, parameter: u64, g: Seq<u64>) -> bool {
    exists|chain: Seq<Seq<u64>>| #[trigger]
        trace_chain(poly, parameter, chain) && chain.len() == 64 && is_gcd(poly, chain[63], g)
}

/// A factoring trial gives the common divisor for its parameter.
pub open spec fn trial_gives(poly: Seq<u64>, trial: nat, g: Seq<u64>) -> bool {
    divisor_for(poly, factor_parameter(trial), g)
}

/// A factor that is neither constant nor the whole.
pub open spec fn proper_factor(poly: Seq<u64>, g: Seq<u64>) -> bool {
    1 < g.len() < poly.len()
}

/// The trial gives no proper factor.
#[verifier::opaque]
pub open spec fn futile_trial(poly: Seq<u64>, trial: nat) -> bool {
    exists|g: Seq<u64>| #[trigger] trial_gives(poly, trial, g) && !proper_factor(poly, g)
}

/// None of the first `n` trials gives a proper factor.
#[verifier::opaque]
pub open spec fn futile(poly: Seq<u64>, n: nat) -> bool {
    forall|trial: nat| trial < n ==> #[trigger] futile_trial(poly, trial)
}

/// The trial after `n` futile ones splits the polynomial into these factors.
#[verifier::opaque]
pub open spec fn split_after(poly: Seq<u64>, n: nat, factor: Seq<u64>, quotient: Seq<u64>) -> bool {
    &&& n < FACTOR_TRIALS
    &&& futile(poly, n)
    &&& trial_gives(poly, n, factor)
    &&& proper_factor(poly, factor)
    &&& monic(quotient)
    &&& factor.len() + quotient.len() == poly.len() + 1
    &&& forall|x: u64| #[trigger] eval(poly, x) == product(eval(quotient, x), eval(factor, x))
}

/// The work runs out at the trial after `n` futile ones.
#[verifier::opaque]
pub open spec fn stopped_after(poly: Seq<u64>, n: nat, work: nat) -> bool {
    &&& n < FACTOR_TRIALS
    &&& futile(poly, n)
    &&& n * trial_cost((poly.len() - 1) as nat) <= work
    &&& work < n * trial_cost((poly.len() - 1) as nat) + trial_cost((poly.len() - 1) as nat)
}

/// The normal form of a quadratic: its roots are the solutions of
/// `z^2 + z = constant`, scaled by the linear coefficient.
pub open spec fn quadratic_constant(poly: Seq<u64>) -> u64 {
    product(poly[0], square(inverse(poly[1])))
}

/// A search for the roots of pending polynomials, the last one first, that ends
/// within a number of steps: with all roots and the work left, or an error.
#[verifier::opaque]
pub open spec fn search_runs(
    pending: Seq<Seq<u64>>,
    found: Seq<u64>,
    work: nat,
    result: Result<(Seq<u64>, nat), AlgebraicError>,
    steps: nat,
) -> bool
    decreases steps,
{
    if pending.len() == 0 {
        result == Ok::<(Seq<u64>, nat), AlgebraicError>((found, work))
    } else if steps == 0 {
        false
    } else {
        let poly = pending.last();
        let rest = pending.drop_last();
        let less = (steps - 1) as nat;
        let failed = Err::<(Seq<u64>, nat), AlgebraicError>(AlgebraicError::DecodeFailure);
        if poly.len() <= 1 {
            search_runs(rest, found, work, result, less)
        } else if poly.len() == 2 {
            search_runs(rest, found.push(poly[0]), work, result, less)
        } else if poly.len() == 3 {
            ||| result == failed && (poly[1] == 0 || forall|z: u64| #[trigger]
                artin_schreier(z) != quadratic_constant(poly))
            ||| exists|z: u64| #[trigger]
                artin_schreier(z) == quadratic_constant(poly) && !bit(z, 0) && poly[1] != 0
                    && search_runs(
                    rest,
                    found.push(product(z, poly[1])).push(product(z, poly[1]) ^ poly[1]),
                    work,
                    result,
                    less,
                )
        } else if trial_cost((poly.len() - 1) as nat) > usize::MAX {
            result == failed
        } else {
            let cost = trial_cost((poly.len() - 1) as nat);
            ||| result == failed && futile(poly, FACTOR_TRIALS as nat) && FACTOR_TRIALS * cost
                <= work
            ||| result == Err::<(Seq<u64>, nat), AlgebraicError>(AlgebraicError::BudgetExhausted)
                && exists|n: nat| #[trigger] stopped_after(poly, n, work)
            ||| exists|n: nat, factor: Seq<u64>, quotient: Seq<u64>| #[trigger]
                split_after(poly, n, factor, quotient) && n * cost + cost <= work && search_runs(
                    rest.push(quotient).push(factor),
                    found,
                    (work - n * cost - cost) as nat,
                    result,
                    less,
                )
        }
    }
}

/// What searching a polynomial for roots with some work comes to.
pub open spec fn root_search(
    poly: Seq<u64>,
    work: nat,
    result: Result<(Seq<u64>, nat), AlgebraicError>,
) -> bool {
    exists|steps: nat| #[trigger]
        search_runs(seq![poly], Seq::empty(), work, result, steps)
}

/// One more futile trial.
proof fn futile_extends(poly: Seq<u64>, trial: nat, g: Seq<u64>)
    requires
        trial_gives(poly, trial, g),
        !proper_factor(poly, g),
        futile(poly, trial),
    ensures
        futile(poly, trial + 1),
{
    reveal(futile_trial);
    reveal(futile);
    assert(futile_trial(poly, trial));
}

proof fn parameter_facts(trial: nat)
    ensures
        factor_parameter(0) == FACTOR_PARAMETER_SEED,
        trial >= MIXED_FACTOR_TRIALS ==> factor_parameter(trial) == 1u64 << ((trial
            - MIXED_FACTOR_TRIALS) as u64),
        trial + 1 < MIXED_FACTOR_TRIALS ==> factor_parameter(trial + 1) == next_parameter(
            factor_parameter(trial),
        ),
{
    reveal(factor_parameter);
}

proof fn nothing_futile(poly: Seq<u64>)
    ensures
        futile(poly, 0),
{
    reveal(futile);
}

/// The polynomial splits into these factors, for the work of the trials it took.
#[verifier::opaque]
spec fn split_paid(
    poly: Seq<u64>,
    factor: Seq<u64>,
    quotient: Seq<u64>,
    before: nat,
    after: nat,
) -> bool {
    exists|n: nat| #[trigger]
        split_after(poly, n, factor, quotient) && after == before - n * trial_cost(
            (poly.len() - 1) as nat,
        ) - trial_cost((poly.len() - 1) as nat)
}

/// The traces of the scaled roots are the same.
spec fn traces_agree(roots: Seq<u64>, parameter: u64) -> bool {
    forall|i: int, j: int|
        #![trigger roots[i], roots[j]]
        0 <= i < roots.len() && 0 <= j < roots.len() ==> trace(product(parameter, roots[i]))
            == trace(product(parameter, roots[j]))
}

/// The common divisor of a polynomial and the trace polynomial of a parameter.
fn trial_divisor(poly: &Polynomial, parameter: u64) -> (result: Option<Polynomial>)
    requires
        monic(poly@),
        2 * poly.len() <= usize::MAX,
    ensures
        result matches Some(g) && divisor_for(poly@, parameter, g@) && monic(g@) && divides(
            g@,
            poly@,
        ) && (!proper_factor(poly@, g@) ==> forall|roots: Seq<u64>| #[trigger]
            splits(poly@, roots) ==> traces_agree(roots, parameter)),
{
    let t: Polynomial = match trace_mod(poly.as_slice(), parameter) {
        Some(t) => t,
        None => return None,
    };
    let ghost reduced_trace = t@;
    let copy: Polynomial = poly.clone();
    proof {
        assert(copy@ =~= poly@);
    }
    let factor: Polynomial = match poly_gcd(copy, t) {
        Some(factor) => factor,
        None => return None,
    };
    proof {
        let chain = choose|chain: Seq<Seq<u64>>| #[trigger]
            trace_chain(poly@, parameter, chain) && chain.len() == 64 && chain[63]
                == reduced_trace;
        reveal(divisor_for);
        assert(is_gcd(poly@, chain[63], factor@));
        if !proper_factor(poly@, factor@) {
            assert forall|roots: Seq<u64>| #[trigger] splits(poly@, roots) implies traces_agree(
                roots,
                parameter,
            ) by {
                unsplit_agrees(poly@, roots, reduced_trace, factor@, parameter);
            }
        }
    }
    Some(factor)
}

/// Splits a polynomial of degree at least three into two proper factors.
#[verifier::spinoff_prover]
fn split_polynomial(poly: &Polynomial, work: &mut usize) -> (result: Result<
    (Polynomial, Polynomial),
    AlgebraicError,
>)
    requires
        monic(poly@),
        poly.len() >= 4,
    ensures
        *final(work) <= *old(work),
        *old(work) - *final(work) <= FACTOR_TRIALS * trial_cost((poly.len() - 1) as nat),
        unaffordable(poly@, *old(work)) ==> result == Err::<
            (Polynomial, Polynomial),
            AlgebraicError,
        >(AlgebraicError::BudgetExhausted) && *final(work) == *old(work),
        match result {
            Ok((factor, quotient)) => {
                &&& *final(work) + trial_cost((poly.len() - 1) as nat) <= *old(work)
                &&& trial_cost((poly.len() - 1) as nat) <= usize::MAX
                &&& split_paid(
                    poly@,
                    factor@,
                    quotient@,
                    *old(work) as nat,
                    *final(work) as nat,
                )
                &&& monic(factor@)
                &&& monic(quotient@)
                &&& factor.len() > 1
                &&& quotient.len() > 1
                &&& factor.len() + quotient.len() == poly.len() + 1
                &&& forall|x: u64| #[trigger]
                    eval(poly@, x) == product(eval(quotient@, x), eval(factor@, x))
                &&& separable(poly@) ==> separable(factor@) && separable(quotient@)
            },
            Err(AlgebraicError::BudgetExhausted) => {
                &&& *old(work) < FACTOR_TRIALS * trial_cost((poly.len() - 1) as nat)
                &&& trial_cost((poly.len() - 1) as nat) <= usize::MAX
                &&& exists|n: nat| #[trigger] stopped_after(poly@, n, *old(work) as nat)
            },
            Err(AlgebraicError::DecodeFailure) => trial_cost((poly.len() - 1) as nat) <= usize::MAX
                ==> {
                &&& !separable(poly@)
                &&& futile(poly@, FACTOR_TRIALS as nat)
                &&& FACTOR_TRIALS * trial_cost((poly.len() - 1) as nat) <= *old(work)
            },
            Err(_) => false,
        },
{
    let degree: usize = poly.len() - 1;
    let cost: usize = match factor_trial_cost(degree) {
        Some(cost) => cost,
        None => {
            proof {
                trial_cost_value(degree as nat);
            }
            return Err(AlgebraicError::DecodeFailure);
        },
    };
    proof {
        trial_cost_value(degree as nat);
        trial_cost_large(degree as nat);
    }
    let ghost start = *work;
    proof {
        nothing_futile(poly@);
        parameter_facts(0);
    }
    let mut parameter: u64 = FACTOR_PARAMETER_SEED;
    let mut trial: usize = 0;
    while trial < FACTOR_TRIALS
        invariant
            trial <= FACTOR_TRIALS,
            monic(poly@),
            poly.len() >= 4,
            degree == poly.len() - 1,
            cost == trial_cost(degree as nat),
            2 * poly.len() <= cost,
            *work <= start,
            start - *work == trial * cost,
            futile(poly@, trial as nat),
            trial < MIXED_FACTOR_TRIALS ==> parameter == factor_parameter(trial as nat),
            forall|roots: Seq<u64>, k: nat, i: int, j: int|
                #![trigger splits(poly@, roots), basis_trace(k, roots[i]), basis_trace(k, roots[j])]
                splits(poly@, roots) && k + MIXED_FACTOR_TRIALS < trial && 0 <= i < roots.len() && 0
                    <= j < roots.len() ==> basis_trace(k, roots[i]) == basis_trace(k, roots[j]),
            start == *old(work),
        decreases FACTOR_TRIALS - trial,
    {
        if trial >= MIXED_FACTOR_TRIALS {
            parameter = 1u64 << (trial - MIXED_FACTOR_TRIALS);
        }
        proof {
            parameter_facts(trial as nat);
        }
        if *work < cost {
            proof {
                reveal(stopped_after);
                assert(stopped_after(poly@, trial as nat, start as nat));
                assert(trial * cost + cost <= 72 * cost) by (nonlinear_arith)
                    requires
                        trial < 72,
                        cost >= 0,
                ;
                assert(trial * cost <= 72 * cost) by (nonlinear_arith)
                    requires
                        trial < 72,
                        cost >= 0,
                ;
                assert(trial >= 1 ==> trial * cost >= cost) by (nonlinear_arith)
                    requires
                        cost >= 0,
                ;
            }
            return Err(AlgebraicError::BudgetExhausted);
        }
        *work = *work - cost;
        proof {
            assert((trial + 1) * cost == trial * cost + cost) by (nonlinear_arith);
            assert((trial + 1) * cost <= 72 * cost) by (nonlinear_arith)
                requires
                    trial < 72,
                    cost >= 0,
            ;
        }
        let factor: Polynomial = match trial_divisor(poly, parameter) {
            Some(factor) => factor,
            None => return Err(AlgebraicError::DecodeFailure),
        };
        if factor.len() > 1 && factor.len() < poly.len() {
            let copy: Polynomial = poly.clone();
            proof {
                assert(copy@ =~= poly@);
            }
            let quotient: Polynomial = match poly_div(copy, factor.as_slice()) {
                Some(quotient) => quotient,
                None => return Err(AlgebraicError::DecodeFailure),
            };
            proof {
                let rest = choose|rest: Seq<u64>|
                    #![trigger divided(poly@, factor@, quotient@, rest)]
                    rest.len() < factor.len() && divided(poly@, factor@, quotient@, rest);
                exact_division(poly@, factor@, quotient@, rest);
                if separable(poly@) {
                    let roots = choose|roots: Seq<u64>| #[trigger] splits(poly@, roots);
                    divisor_splits(poly@, roots, factor@);
                    cofactor_splits(poly@, roots, factor@, quotient@);
                    assert(separable(factor@) && separable(quotient@));
                }
                assert(split_after(poly@, trial as nat, factor@, quotient@)) by {
                    reveal(split_after);
                }
                assert(split_paid(poly@, factor@, quotient@, start as nat, *work as nat)) by {
                    reveal(split_paid);
                }
            }
            return Ok((factor, quotient));
        }
        proof {
            futile_extends(poly@, trial as nat, factor@);
            assert forall|roots: Seq<u64>, k: nat, i: int, j: int|
                #![trigger splits(poly@, roots), basis_trace(k, roots[i]), basis_trace(k, roots[j])]
                splits(poly@, roots) && k + MIXED_FACTOR_TRIALS < trial + 1 && 0 <= i < roots.len()
                    && 0 <= j < roots.len() implies basis_trace(k, roots[i]) == basis_trace(
                k,
                roots[j],
            ) by {
                if k + MIXED_FACTOR_TRIALS == trial {
                    assert(traces_agree(roots, parameter));
                    assert(roots[i] == roots[i] && roots[j] == roots[j]);
                }
            }
        }
        if trial < MIXED_FACTOR_TRIALS {
            parameter = next_factor_parameter(parameter);
        }
        trial = trial + 1;
    }
    proof {
        if separable(poly@) {
            let roots = choose|roots: Seq<u64>| #[trigger] splits(poly@, roots);
            basis_separates(roots[0], roots[1]);
            let k = choose|k: nat|
                k < 64 && #[trigger] basis_trace(k, roots[0]) != basis_trace(k, roots[1]);
            assert(basis_trace(k, roots[0]) == basis_trace(k, roots[1]));
        }
    }
    Err(AlgebraicError::DecodeFailure)
}

/// The work charged for one factoring trial of a polynomial.
pub open spec fn trial_cost(degree: nat) -> nat {
    63 * (degree * degree)
}

proof fn trial_cost_value(degree: nat)
    ensures
        degree * degree * TRACE_SQUARES == trial_cost(degree),
{
    assert(degree * degree * 63 == 63 * (degree * degree)) by (nonlinear_arith);
}

proof fn trial_cost_large(degree: nat)
    requires
        degree >= 3,
    ensures
        2 * (degree + 1) <= trial_cost(degree),
{
    assert(degree * degree >= 3 * degree) by (nonlinear_arith)
        requires
            degree >= 3,
    ;
}

/// The work left does not pay for the first trial that the polynomial takes.
pub open spec fn unaffordable(poly: Seq<u64>, work: usize) -> bool {
    &&& poly.len() >= 4
    &&& work < trial_cost((poly.len() - 1) as nat) <= usize::MAX
}

/// The product of the values of the pending polynomials.
pub open spec fn pending_value(pending: Seq<Vec<u64>>, x: u64) -> u64
    decreases pending.len(),
{
    if pending.len() == 0 {
        1
    } else {
        product(pending_value(pending.drop_last(), x), eval(pending.last()@, x))
    }
}

/// The contents of the pending polynomials.
pub open spec fn pending_views(pending: Seq<Vec<u64>>) -> Seq<Seq<u64>> {
    Seq::new(pending.len(), |i: int| pending[i]@)
}

/// The degrees of the pending polynomials, added up.
pub open spec fn pending_degree(pending: Seq<Vec<u64>>) -> int
    decreases pending.len(),
{
    if pending.len() == 0 {
        0
    } else {
        pending_degree(pending.drop_last()) + (pending.last().len() - 1)
    }
}

/// Bounds the steps that the pending polynomials can still take.
spec fn pending_steps(pending: Seq<Vec<u64>>) -> nat
    decreases pending.len(),
{
    if pending.len() == 0 {
        0
    } else {
        let length = pending.last().len();
        pending_steps(pending.drop_last()) + if length <= 1 {
            1nat
        } else {
            (2 * length - 3) as nat
        }
    }
}

/// The sum of `j * j` for `j` from three to `n`.
pub open spec fn square_pyramid(n: nat) -> nat
    decreases n,
{
    if n < 3 {
        0
    } else {
        n * n + square_pyramid((n - 1) as nat)
    }
}

/// Work that always suffices to find the roots of a polynomial of this degree.
pub open spec fn sufficient_work(degree: nat) -> nat {
    4536 * square_pyramid(degree)
}

/// Work that always suffices for the pending polynomials.
pub open spec fn pending_work(pending: Seq<Vec<u64>>) -> nat
    decreases pending.len(),
{
    if pending.len() == 0 {
        0
    } else {
        pending_work(pending.drop_last()) + sufficient_work((pending.last().len() - 1) as nat)
    }
}

/// Two parts cost no more than what is left after the trials that part them.
proof fn pyramid_splits(a: nat, b: nat)
    requires
        a >= 1,
        b >= 1,
    ensures
        square_pyramid(a) + square_pyramid(b) <= square_pyramid((a + b - 1) as nat),
    decreases b,
{
    let n = (a + b - 1) as nat;
    if b >= 2 {
        pyramid_splits(a, (b - 1) as nat);
        assert(b * b <= n * n) by (nonlinear_arith)
            requires
                n == a + b - 1,
                a >= 1,
                b >= 1,
        ;
    }
}

/// A polynomial that is a product of distinct linear factors.
pub open spec fn separable(p: Seq<u64>) -> bool {
    exists|roots: Seq<u64>| #[trigger] splits(p, roots)
}

/// What has been found, and what is pending, make up the whole polynomial.
spec fn accounts(poly: Seq<u64>, found: Seq<u64>, pending: Seq<Vec<u64>>) -> bool {
    &&& found.len() + pending_degree(pending) == poly.len() - 1
    &&& forall|i: int| 0 <= i < pending.len() ==> monic((#[trigger] pending[i])@)
    &&& forall|x: u64| #[trigger]
        eval(poly, x) == product(root_product(found, x), pending_value(pending, x))
}

/// Appending one root moves its linear factor from pending to found.
proof fn found_linear(poly: Seq<u64>, found: Seq<u64>, pending: Seq<Vec<u64>>)
    requires
        pending.len() > 0,
        accounts(poly, found, pending),
        pending.last().len() == 2,
    ensures
        accounts(poly, found.push(pending.last()@[0]), pending.drop_last()),
{
    let last = pending.last()@;
    let rest = pending.drop_last();
    let r = last[0];
    assert(monic(pending[pending.len() - 1]@));
    assert forall|x: u64| #[trigger] eval(poly, x) == product(
        root_product(found.push(r), x),
        pending_value(rest, x),
    ) by {
        eval_linear(last, x);
        root_product_push(found, r, x);
        let a = root_product(found, x);
        let b = pending_value(rest, x);
        let c = eval(last, x);
        xor_comm(x, r);
        product_comm(b, c);
        product_assoc(a, c, b);
    }
    assert forall|i: int| 0 <= i < rest.len() implies monic((#[trigger] rest[i])@) by {
        assert(rest[i] == pending[i]);
    }
}

proof fn eval_linear(p: Seq<u64>, x: u64)
    requires
        p.len() == 2,
    ensures
        eval(p, x) == p[0] ^ product(p[1], x),
        p[1] == 1 ==> eval(p, x) == p[0] ^ x,
{
    let t = p.drop_first();
    assert(t.drop_first() =~= Seq::<u64>::empty());
    assert(eval(Seq::<u64>::empty(), x) == 0);
    product_zero(x);
    xor_zero(t[0]);
    assert(eval(t, x) == p[1]);
    product_comm(x, p[1]);
    product_one(x);
}

proof fn eval_quadratic(p: Seq<u64>, x: u64)
    requires
        p.len() == 3,
        p[2] == 1,
    ensures
        eval(p, x) == (p[0] ^ product(p[1], x)) ^ square(x),
{
    let init = p.drop_last();
    assert(p =~= init.push(1));
    eval_push(init, 1, x);
    eval_linear(init, x);
    reveal_with_fuel(power, 3);
    product_one(x);
    product_one(square(x));
}

/// The two roots of a quadratic whose linear coefficient is not zero.
proof fn quadratic_roots(c: u64, l: u64, z: u64, x: u64)
    requires
        l != 0,
        artin_schreier(z) == product(c, square(inverse(l))),
    ensures
        (c ^ product(l, x)) ^ square(x) == product(x ^ product(z, l), x ^ (product(z, l) ^ l)),
        product(z, l) != product(z, l) ^ l,
{
    let r = product(z, l);
    let s = r ^ l;
    // c = r * s
    inverse_product(l);
    product_exchange(inverse(l), inverse(l), l, l);
    product_comm(inverse(l), l);
    product_one(1);
    assert(product(square(inverse(l)), square(l)) == 1);
    product_assoc(c, square(inverse(l)), square(l));
    product_one(c);
    product_add_left(square(z), z, square(l));
    product_exchange(z, z, l, l);
    product_assoc(z, l, l);
    assert(product(artin_schreier(z), square(l)) == square(r) ^ product(r, l));
    product_add_right(r, r, l);
    assert(c == product(r, s));
    // (x + r)(x + s) = x^2 + x (r + s) + r s
    product_add_left(x, r, x ^ s);
    product_add_right(x, x, s);
    product_add_right(r, x, s);
    product_comm(r, x);
    let (xx, xs, xr, rs) = (square(x), product(x, s), product(x, r), product(r, s));
    product_add_right(x, r, s);
    xor_cancel(r, l);
    product_comm(x, l);
    // (xx + xs) + (xr + rs) = (c + l x) + xx
    xor_comm(xs, xr);
    xor_exchange(xx, xs, xr, rs);
    xor_assoc(xx, xr, xs ^ rs);
    xor_assoc(xr, xs, rs);
    xor_comm(xr ^ xs, rs);
    xor_comm(xx, rs ^ (xr ^ xs));
    xor_self(r);
    xor_cancel(r, r ^ l);
}

/// Appending the two roots of a quadratic moves it from pending to found.
proof fn found_quadratic(poly: Seq<u64>, found: Seq<u64>, pending: Seq<Vec<u64>>, z: u64)
    requires
        pending.len() > 0,
        accounts(poly, found, pending),
        pending.last().len() == 3,
        pending.last()@[1] != 0,
        artin_schreier(z) == product(pending.last()@[0], square(inverse(pending.last()@[1]))),
    ensures
        accounts(
            poly,
            found.push(product(z, pending.last()@[1])).push(
                product(z, pending.last()@[1]) ^ pending.last()@[1],
            ),
            pending.drop_last(),
        ),
{
    let last = pending.last()@;
    let rest = pending.drop_last();
    let l = last[1];
    let r = product(z, l);
    let s = r ^ l;
    assert(monic(pending[pending.len() - 1]@));
    assert forall|x: u64| #[trigger] eval(poly, x) == product(
        root_product(found.push(r).push(s), x),
        pending_value(rest, x),
    ) by {
        eval_quadratic(last, x);
        quadratic_roots(last[0], l, z, x);
        root_product_push(found, r, x);
        root_product_push(found.push(r), s, x);
        let a = root_product(found, x);
        let b = pending_value(rest, x);
        let c = eval(last, x);
        product_assoc(a, x ^ r, x ^ s);
        product_comm(b, c);
        product_assoc(a, c, b);
    }
    assert forall|i: int| 0 <= i < rest.len() implies monic((#[trigger] rest[i])@) by {
        assert(rest[i] == pending[i]);
    }
}

/// Replacing a pending polynomial by its two factors keeps the account.
proof fn found_factors(
    poly: Seq<u64>,
    found: Seq<u64>,
    pending: Seq<Vec<u64>>,
    factor: Vec<u64>,
    quotient: Vec<u64>,
)
    requires
        pending.len() > 0,
        accounts(poly, found, pending),
        monic(factor@),
        monic(quotient@),
        factor.len() > 1,
        quotient.len() > 1,
        factor.len() + quotient.len() == pending.last().len() + 1,
        pending.last().len() >= 4,
        forall|x: u64| #[trigger]
            eval(pending.last()@, x) == product(eval(quotient@, x), eval(factor@, x)),
    ensures
        accounts(poly, found, pending.drop_last().push(quotient).push(factor)),
        pending_work(pending.drop_last().push(quotient).push(factor)) + 72 * trial_cost(
            (pending.last().len() - 1) as nat,
        ) <= pending_work(pending),
{
    let last = pending.last()@;
    let rest = pending.drop_last();
    let next = rest.push(quotient).push(factor);
    assert(next.drop_last() =~= rest.push(quotient));
    assert(next.drop_last().drop_last() =~= rest);
    assert(monic(pending[pending.len() - 1]@));
    assert forall|x: u64| #[trigger] eval(poly, x) == product(
        root_product(found, x),
        pending_value(next, x),
    ) by {
        assert(eval(last, x) == product(eval(quotient@, x), eval(factor@, x)));
        product_assoc(pending_value(rest, x), eval(quotient@, x), eval(factor@, x));
        assert(rest.push(quotient).drop_last() =~= rest);
        assert(pending_value(rest.push(quotient), x) == product(
            pending_value(rest, x),
            eval(quotient@, x),
        ));
    }
    assert(pending_degree(rest.push(quotient)) == pending_degree(rest) + quotient.len() - 1) by {
        assert(rest.push(quotient).drop_last() =~= rest);
    }
    assert forall|i: int| 0 <= i < next.len() implies monic((#[trigger] next[i])@) by {
        if i < rest.len() {
            assert(next[i] == pending[i]);
        }
    }
    let a = (quotient.len() - 1) as nat;
    let b = (factor.len() - 1) as nat;
    let d = (last.len() - 1) as nat;
    assert(a + b == d);
    pyramid_splits(a, b);
    assert(pending_work(rest.push(quotient)) == pending_work(rest) + sufficient_work(a)) by {
        assert(rest.push(quotient).drop_last() =~= rest);
    }
    assert(square_pyramid(d) == d * d + square_pyramid((d - 1) as nat));
}

/// A quadratic with two distinct roots has a linear term, and its normal form
/// has a solution.
proof fn separable_quadratic(p: Seq<u64>)
    requires
        p.len() == 3,
        separable(p),
    ensures
        p[1] != 0,
        exists|z: u64| #[trigger] artin_schreier(z) == product(p[0], square(inverse(p[1]))),
{
    let roots = choose|roots: Seq<u64>| #[trigger] splits(p, roots);
    let (a, b) = (roots[0], roots[1]);
    let (c, l) = (p[0], p[1]);
    eval_quadratic(p, a);
    eval_quadratic(p, b);
    assert(eval(p, roots[0]) == 0 && eval(p, roots[1]) == 0);
    // l a + a^2 = c = l b + b^2
    let (la, lb, aa, bb) = (product(l, a), product(l, b), square(a), square(b));
    xor_cancel(c ^ la, aa);
    xor_cancel(c ^ lb, bb);
    assert(c ^ la == aa && c ^ lb == bb);
    if l == 0 {
        product_zero(a);
        product_zero(b);
        xor_zero(c);
        square_add(a, b);
        xor_self(aa);
        no_zero_divisors(a ^ b, a ^ b);
        xor_cancel(a, b);
    }
    // z = a / l
    let i = inverse(l);
    inverse_product(l);
    let z = product(a, i);
    product_exchange(a, i, a, i);
    assert(square(z) == product(aa, square(i)));
    // z = l a / l^2
    product_assoc(la, i, i);
    product_comm(l, a);
    product_assoc(a, l, i);
    product_one(a);
    product_one(i);
    assert(product(la, square(i)) == z) by {
        assert(product(la, i) == a);
    }
    product_add_left(aa, la, square(i));
    xor_cancel(c, la);
    assert(aa ^ la == c);
    assert(artin_schreier(z) == product(c, square(i)));
}

/// However the search goes on from here, the whole search goes that way.
#[verifier::opaque]
spec fn leads_on(
    pending: Seq<Seq<u64>>,
    found: Seq<u64>,
    work: nat,
    whole: Seq<u64>,
    budget: nat,
) -> bool {
    forall|result: Result<(Seq<u64>, nat), AlgebraicError>, steps: nat| #[trigger]
        search_runs(pending, found, work, result, steps) ==> root_search(whole, budget, result)
}

proof fn search_starts(whole: Seq<u64>, budget: nat)
    ensures
        leads_on(seq![whole], Seq::empty(), budget, whole, budget),
{
    reveal(leads_on);
}

proof fn search_finishes(found: Seq<u64>, work: nat, whole: Seq<u64>, budget: nat)
    requires
        leads_on(Seq::empty(), found, work, whole, budget),
    ensures
        root_search(whole, budget, Ok((found, work))),
{
    reveal(leads_on);
    reveal(search_runs);
    assert(search_runs(Seq::empty(), found, work, Ok((found, work)), 0));
}

proof fn search_fails(
    pending: Seq<Seq<u64>>,
    found: Seq<u64>,
    work: nat,
    whole: Seq<u64>,
    budget: nat,
    error: AlgebraicError,
)
    requires
        leads_on(pending, found, work, whole, budget),
        search_runs(pending, found, work, Err(error), 1),
    ensures
        root_search(whole, budget, Err(error)),
{
    reveal(leads_on);
}

proof fn search_passes(
    pending: Seq<Seq<u64>>,
    found: Seq<u64>,
    work: nat,
    whole: Seq<u64>,
    budget: nat,
    more: Seq<u64>,
)
    requires
        leads_on(pending, found, work, whole, budget),
        pending.len() > 0,
        ({
            let poly = pending.last();
            ||| poly.len() <= 1 && more.len() == 0
            ||| poly.len() == 2 && more == seq![poly[0]]
            ||| poly.len() == 3 && poly[1] != 0 && exists|z: u64| #[trigger]
                artin_schreier(z) == quadratic_constant(poly) && !bit(z, 0) && more == seq![
                    product(z, poly[1]),
                    product(z, poly[1]) ^ poly[1],
                ]
        }),
    ensures
        leads_on(pending.drop_last(), found + more, work, whole, budget),
{
    reveal(leads_on);
    let poly = pending.last();
    let rest = pending.drop_last();
    assert forall|result: Result<(Seq<u64>, nat), AlgebraicError>, steps: nat| #[trigger]
        search_runs(rest, found + more, work, result, steps) implies root_search(
        whole,
        budget,
        result,
    ) by {
        assert(search_runs(pending, found, work, result, steps + 1)) by {
            reveal(search_runs);
            if poly.len() <= 1 {
                assert(found + more =~= found);
            } else if poly.len() == 2 {
                assert(found + more =~= found.push(poly[0]));
            } else {
                let z = choose|z: u64| #[trigger]
                    artin_schreier(z) == quadratic_constant(poly) && !bit(z, 0) && more == seq![
                        product(z, poly[1]),
                        product(z, poly[1]) ^ poly[1],
                    ];
                assert(found + more =~= found.push(product(z, poly[1])).push(
                    product(z, poly[1]) ^ poly[1],
                ));
            }
        }
    }
}

proof fn search_splits(
    pending: Seq<Seq<u64>>,
    found: Seq<u64>,
    work: nat,
    whole: Seq<u64>,
    budget: nat,
    n: nat,
    factor: Seq<u64>,
    quotient: Seq<u64>,
    left: nat,
)
    requires
        leads_on(pending, found, work, whole, budget),
        pending.len() > 0,
        pending.last().len() > 3,
        trial_cost((pending.last().len() - 1) as nat) <= usize::MAX,
        split_after(pending.last(), n, factor, quotient),
        left == work - n * trial_cost((pending.last().len() - 1) as nat) - trial_cost(
            (pending.last().len() - 1) as nat,
        ),
    ensures
        leads_on(
            pending.drop_last().push(quotient).push(factor),
            found,
            left,
            whole,
            budget,
        ),
{
    reveal(leads_on);
    let next = pending.drop_last().push(quotient).push(factor);
    assert forall|result: Result<(Seq<u64>, nat), AlgebraicError>, steps: nat| #[trigger]
        search_runs(next, found, left, result, steps) implies root_search(
        whole,
        budget,
        result,
    ) by {
        assert(search_runs(pending, found, work, result, steps + 1)) by {
            reveal(search_runs);
        }
    }
}

/// Finds the roots of a monic polynomial within a work budget, and appends them.
pub fn find_roots_with_budget(
    poly: Polynomial,
    roots: &mut Vec<u64>,
    work: &mut usize,
) -> (result: Result<(), AlgebraicError>)
    requires
        monic(poly@),
    ensures
        old(roots)@.is_prefix_of(final(roots)@),
        *final(work) <= *old(work),
        poly.len() < 4 ==> *final(work) == *old(work),
        unaffordable(poly@, *old(work)) ==> result == Err::<(), AlgebraicError>(
            AlgebraicError::BudgetExhausted,
        ) && *final(work) == *old(work) && final(roots)@ == old(roots)@,
        root_search(
            poly@,
            *old(work) as nat,
            match result {
                Ok(_) => Ok(
                    (final(roots)@.skip(old(roots).len() as int), *final(work) as nat),
                ),
                Err(error) => Err(error),
            },
        ),
        match result {
            Ok(_) => {
                let found = final(roots)@.skip(old(roots).len() as int);
                &&& poly.len() >= 4 ==> *final(work) + trial_cost((poly.len() - 1) as nat) <= *old(
                    work,
                )
                &&& found.len() == poly.len() - 1
                &&& forall|x: u64| #[trigger] eval(poly@, x) == root_product(found, x)
            },
            Err(AlgebraicError::BudgetExhausted) => *old(work) < sufficient_work(
                (poly.len() - 1) as nat,
            ),
            Err(AlgebraicError::DecodeFailure) => trial_cost((poly.len() - 1) as nat) <= usize::MAX
                ==> !separable(poly@),
            Err(_) => false,
        },
{
    let ghost whole = poly@;
    let ghost before = roots@;
    let ghost budget = *work;
    let ghost hopeful = separable(whole) && trial_cost((whole.len() - 1) as nat) <= usize::MAX;
    let ghost mut found = Seq::<u64>::empty();
    let mut pending: Vec<Polynomial> = Vec::new();
    pending.push(poly);
    proof {
        assert(pending@.drop_last() =~= Seq::<Vec<u64>>::empty());
        assert(pending_work(Seq::<Vec<u64>>::empty()) == 0);
        assert(pending_degree(Seq::<Vec<u64>>::empty()) == 0);
        assert(pending_views(pending@) =~= seq![whole]);
        search_starts(whole, budget as nat);
        assert forall|x: u64| #[trigger] eval(whole, x) == product(
            root_product(found, x),
            pending_value(pending@, x),
        ) by {
            assert(pending_value(Seq::<Vec<u64>>::empty(), x) == 1);
            product_one(eval(whole, x));
        }
    }
    while pending.len() > 0
        invariant
            whole.len() > 0,
            roots@ =~= before + found,
            accounts(whole, found, pending@),
            hopeful ==> separable(whole) && trial_cost((whole.len() - 1) as nat) <= usize::MAX,
            hopeful ==> forall|i: int|
                0 <= i < pending.len() ==> separable((#[trigger] pending@[i])@),
            *work <= budget,
            budget >= sufficient_work((whole.len() - 1) as nat) ==> *work >= pending_work(pending@),
            hopeful == (separable(whole) && trial_cost((whole.len() - 1) as nat) <= usize::MAX),
            whole.len() >= 4 ==> (*work + trial_cost((whole.len() - 1) as nat) <= budget || (
            pending.len() == 1 && pending@[0]@ == whole && *work == budget && found.len() == 0)),
            whole.len() < 4 ==> *work == budget,
            leads_on(pending_views(pending@), found, *work as nat, whole, budget as nat),
            whole == poly@,
            before == old(roots)@,
            budget == *old(work),
        decreases pending_steps(pending@),
    {
        let ghost stack = pending@;
        proof {
            assert(monic(stack[stack.len() - 1]@));
            degree_nonnegative(stack.drop_last());
        }
        let poly: Polynomial = match pending.pop() {
            Some(poly) => poly,
            None => return Ok(()),
        };
        let ghost rest = pending@;
        proof {
            assert(rest =~= stack.drop_last());
            assert(stack.last() == poly);
            assert(hopeful ==> separable(stack[stack.len() - 1]@));
            assert forall|i: int| 0 <= i < rest.len() implies rest[i] == stack[i] by {}
            assert(pending_views(stack).last() == poly@);
            assert(pending_views(stack).drop_last() =~= pending_views(rest));
        }
        let ghost views = pending_views(stack);
        let ghost left = *work as nat;
        let degree: usize = poly.len() - 1;
        if degree == 0 {
            proof {
                search_passes(views, found, left, whole, budget as nat, Seq::empty());
                assert(found + Seq::<u64>::empty() =~= found);
                assert forall|x: u64| #[trigger] eval(whole, x) == product(
                    root_product(found, x),
                    pending_value(rest, x),
                ) by {
                    assert(poly@.drop_first() =~= Seq::<u64>::empty());
                    assert(eval(Seq::<u64>::empty(), x) == 0);
                    product_zero(x);
                    xor_zero(poly@[0]);
                    product_one(pending_value(rest, x));
                }
            }
            continue;
        }
        if degree == 1 {
            proof {
                found_linear(whole, found, stack);
                search_passes(views, found, left, whole, budget as nat, seq![poly@[0]]);
                assert(found + seq![poly@[0]] =~= found.push(poly@[0]));
                found = found.push(poly@[0]);
            }
            roots.push(poly[0]);
            continue;
        }
        if degree == 2 {
            proof {
                if hopeful {
                    separable_quadratic(poly@);
                }
            }
            let linear: u64 = poly[1];
            if linear == 0 {
                proof {
                    reveal(search_runs);
                    search_fails(
                        views,
                        found,
                        left,
                        whole,
                        budget as nat,
                        AlgebraicError::DecodeFailure,
                    );
                }
                return Err(AlgebraicError::DecodeFailure);
            }
            let inv: u64 = match gf64_inv(linear) {
                Some(inv) => inv,
                None => return Err(AlgebraicError::DecodeFailure),
            };
            let normalized: u64 = gf64_mul(poly[0], gf64_mul(inv, inv));
            let z: u64 = match solve_quadratic_form(normalized) {
                Some(z) => z,
                None => {
                    proof {
                        reveal(search_runs);
                        search_fails(
                            views,
                            found,
                            left,
                            whole,
                            budget as nat,
                            AlgebraicError::DecodeFailure,
                        );
                    }
                    return Err(AlgebraicError::DecodeFailure);
                },
            };
            let root: u64 = gf64_mul(z, linear);
            proof {
                found_quadratic(whole, found, stack, z);
                assert(artin_schreier(z) == quadratic_constant(poly@));
                search_passes(
                    views,
                    found,
                    left,
                    whole,
                    budget as nat,
                    seq![root, root ^ linear],
                );
                assert(found + seq![root, root ^ linear] =~= found.push(root).push(root ^ linear));
                found = found.push(root).push(root ^ linear);
            }
            roots.push(root);
            roots.push(root ^ linear);
            continue;
        }
        proof {
            degree_bounded(whole, found, stack);
        }
        match split_polynomial(&poly, work) {
            Ok((factor, quotient)) => {
                proof {
                    found_factors(whole, found, stack, factor, quotient);
                    reveal(split_paid);
                    let n = choose|n: nat| #[trigger]
                        split_after(poly@, n, factor@, quotient@) && *work == left - n
                            * trial_cost((poly.len() - 1) as nat) - trial_cost(
                            (poly.len() - 1) as nat,
                        );
                    search_splits(
                        views,
                        found,
                        left,
                        whole,
                        budget as nat,
                        n,
                        factor@,
                        quotient@,
                        *work as nat,
                    );
                }
                pending.push(quotient);
                pending.push(factor);
                proof {
                    assert(pending@ =~= stack.drop_last().push(quotient).push(factor));
                    assert(pending_views(pending@) =~= views.drop_last().push(quotient@).push(
                        factor@,
                    ));
                    assert(pending@.drop_last() =~= rest.push(quotient));
                    assert(rest.push(quotient).drop_last() =~= rest);
                    assert(pending_steps(rest.push(quotient)) == pending_steps(rest) + (2
                        * quotient.len() - 3));
                    assert(pending_steps(pending@) == pending_steps(rest.push(quotient)) + (2
                        * factor.len() - 3));
                    assert(pending_steps(stack) == pending_steps(rest) + (2 * poly.len() - 3));
                }
            },
            Err(error) => {
                proof {
                    let d = (poly.len() - 1) as nat;
                    assert(square_pyramid(d) >= d * d);
                    assert(pending_work(stack) >= sufficient_work(d));
                    assert(search_runs(views, found, left, Err(error), 1)) by {
                        reveal(search_runs);
                    }
                    search_fails(views, found, left, whole, budget as nat, error);
                }
                return Err(error);
            },
        }
    }
    proof {
        assert forall|x: u64| #[trigger] eval(whole, x) == root_product(found, x) by {
            product_one(root_product(found, x));
        }
        assert(roots@.skip(before.len() as int) =~= found);
        assert(pending_views(pending@) =~= Seq::<Seq<u64>>::empty());
        search_finishes(found, *work as nat, whole, budget as nat);
    }
    Ok(())
}

proof fn degree_nonnegative(pending: Seq<Vec<u64>>)
    requires
        forall|i: int| 0 <= i < pending.len() ==> monic((#[trigger] pending[i])@),
    ensures
        pending_degree(pending) >= 0,
    decreases pending.len(),
{
    if pending.len() > 0 {
        assert(monic(pending[pending.len() - 1]@));
        assert forall|i: int| 0 <= i < pending.len() - 1 implies monic(
            (#[trigger] pending.drop_last()[i])@,
        ) by {
            assert(pending.drop_last()[i] == pending[i]);
        }
        degree_nonnegative(pending.drop_last());
    }
}

/// A pending polynomial costs no more per trial than the whole.
proof fn degree_bounded(poly: Seq<u64>, found: Seq<u64>, pending: Seq<Vec<u64>>)
    requires
        accounts(poly, found, pending),
        pending.len() > 0,
        poly.len() > 0,
    ensures
        trial_cost((pending.last().len() - 1) as nat) <= trial_cost((poly.len() - 1) as nat),
{
    let rest = pending.drop_last();
    assert forall|i: int| 0 <= i < rest.len() implies monic((#[trigger] rest[i])@) by {
        assert(rest[i] == pending[i]);
    }
    degree_nonnegative(rest);
    assert(monic(pending[pending.len() - 1]@));
    let a = (pending.last().len() - 1) as nat;
    let b = (poly.len() - 1) as nat;
    assert(a * a <= b * b) by (nonlinear_arith)
        requires
            0 <= a <= b,
    ;
}

/// Finds the roots of a monic polynomial and appends them.
pub fn find_roots(poly: Polynomial, roots: &mut Vec<u64>) -> (result: Result<(), AlgebraicError>)
    requires
        monic(poly@),
    ensures
        old(roots)@.is_prefix_of(final(roots)@),
        unaffordable(poly@, MAX_FACTOR_WORK) ==> result == Err::<(), AlgebraicError>(
            AlgebraicError::BudgetExhausted,
        ),
        result matches Err(error) ==> root_search(poly@, MAX_FACTOR_WORK as nat, Err(error)),
        result is Ok ==> exists|left: nat| #[trigger]
            root_search(
                poly@,
                MAX_FACTOR_WORK as nat,
                Ok((final(roots)@.skip(old(roots).len() as int), left)),
            ),
        match result {
            Ok(_) => {
                let found = final(roots)@.skip(old(roots).len() as int);
                &&& found.len() == poly.len() - 1
                &&& forall|x: u64| #[trigger] eval(poly@, x) == root_product(found, x)
            },
            Err(AlgebraicError::BudgetExhausted) => MAX_FACTOR_WORK < sufficient_work(
                (poly.len() - 1) as nat,
            ),
            Err(AlgebraicError::DecodeFailure) => trial_cost((poly.len() - 1) as nat) <= usize::MAX
                ==> !separable(poly@),
            Err(_) => false,
        },
{
    let mut work: usize = MAX_FACTOR_WORK;
    find_roots_with_budget(poly, roots, &mut work)
}

/// The power sum at one position: given where its exponent is odd, and the
/// square of an earlier one where it is even.
pub open spec fn full_syndrome(odd: Seq<u64>, k: int) -> u64
    decreases k,
{
    if k < 0 || k % 2 == 0 {
        odd[k / 2]
    } else {
        square(full_syndrome(odd, k / 2))
    }
}

/// The full sequence of power sums that odd coordinates determine.
pub open spec fn full_syndromes(odd: Seq<u64>) -> Seq<u64> {
    Seq::new(2 * odd.len(), |k: int| full_syndrome(odd, k))
}

/// Fills in the even power sums, which are squares of earlier ones.
pub fn reconstruct_syndromes(odd: &[u64]) -> (all: Vec<u64>)
    requires
        2 * odd.len() <= usize::MAX,
    ensures
        all@ == full_syndromes(odd@),
{
    let mut all: Vec<u64> = Vec::new();
    let mut index: usize = 0;
    while index < odd.len()
        invariant
            2 * odd.len() <= usize::MAX,
            index <= odd.len(),
            all.len() == 2 * index,
            forall|k: int| 0 <= k < 2 * index ==> #[trigger] all@[k] == full_syndrome(odd@, k),
        decreases odd.len() - index,
    {
        let ghost before = all@;
        all.push(odd[index]);
        proof {
            assert((2 * index) / 2 == index && (2 * index) % 2 == 0);
            assert((2 * index + 1) / 2 == index && (2 * index + 1) % 2 == 1);
            assert(full_syndrome(odd@, 2 * index as int) == odd@[index as int]);
            assert(all@[index as int] == full_syndrome(odd@, index as int)) by {
                if index > 0 {
                    assert(before[index as int] == all@[index as int]);
                }
            }
        }
        let source: u64 = all[index];
        all.push(gf64_mul(source, source));
        proof {
            assert forall|k: int| 0 <= k < 2 * (index + 1) implies #[trigger] all@[k]
                == full_syndrome(odd@, k) by {
                if k < 2 * index {
                    assert(all@[k] == before[k]);
                }
            }
        }
        index = index + 1;
    }
    all
}

/// The coordinates are the odd power sums of the listed elements.
pub open spec fn sketch_of(vs: Seq<u64>, odd: Seq<u64>) -> bool {
    forall|i: int| 0 <= i < odd.len() ==> #[trigger] odd[i] == power_sum(vs, (2 * i + 1) as nat)
}

/// Odd coordinates of a set determine all its power sums.
pub proof fn full_syndromes_sums(odd: Seq<u64>, vs: Seq<u64>)
    requires
        sketch_of(vs, odd),
    ensures
        is_power_sums(vs, full_syndromes(odd)),
{
    let all = full_syndromes(odd);
    assert forall|k: int| 0 <= k < all.len() implies #[trigger] all[k] == power_sum(
        vs,
        (k + 1) as nat,
    ) by {
        full_syndrome_sum(odd, vs, k);
    }
}

proof fn full_syndrome_sum(odd: Seq<u64>, vs: Seq<u64>, k: int)
    requires
        sketch_of(vs, odd),
        0 <= k < 2 * odd.len(),
    ensures
        full_syndrome(odd, k) == power_sum(vs, (k + 1) as nat),
    decreases k,
{
    let i = k / 2;
    if k % 2 == 0 {
        assert(odd[i] == power_sum(vs, (2 * i + 1) as nat));
    } else {
        full_syndrome_sum(odd, vs, i);
        power_sum_square(vs, (i + 1) as nat);
        assert(2 * (i + 1) == k + 1);
    }
}

/// The discrepancy of a recurrence at one position of a sequence.
fn compute_discrepancy(current: &Vec<u64>, syndromes: &[u64], n: usize) -> (result: u64)
    requires
        current.len() > 0,
        current@[0] == 1,
        n < syndromes.len(),
    ensures
        result == discrepancy(current@, syndromes@, n as int),
{
    let mut result: u64 = syndromes[n];
    let mut i: usize = 1;
    proof {
        let one = current@.take(1);
        assert(one =~= Seq::<u64>::empty().push(1));
        discrepancy_push(Seq::empty(), 1, syndromes@, n as int);
        assert(discrepancy(Seq::<u64>::empty(), syndromes@, n as int) == 0);
        product_one(result);
        xor_zero(result);
    }
    while i < current.len()
        invariant
            1 <= i <= current.len(),
            n < syndromes.len(),
            result == discrepancy(current@.take(i as int), syndromes@, n as int),
        decreases current.len() - i,
    {
        proof {
            assert(current@.take(i + 1) =~= current@.take(i as int).push(current@[i as int]));
            discrepancy_push(
                current@.take(i as int),
                current@[i as int],
                syndromes@,
                n as int,
            );
        }
        if i <= n {
            proof {
                product_comm(syndromes@[n - i], current@[i as int]);
            }
            result = result ^ gf64_mul(syndromes[n - i], current[i]);
        } else {
            proof {
                product_zero(current@[i as int]);
                xor_zero(result);
            }
        }
        i = i + 1;
    }
    proof {
        assert(current@.take(i as int) =~= current@);
    }
    result
}

/// What the last change of length left behind: a shorter recurrence and the
/// position where it failed.
spec fn remembered(
    s: Seq<u64>,
    current: Seq<u64>,
    previous: Seq<u64>,
    failure: u64,
    n: int,
) -> bool {
    let m = current.len() + previous.len() - 3;
    &&& normalized(previous)
    &&& failure != 0
    &&& m < n
    &&& current.len() == 1 ==> previous.len() == 1
    &&& current.len() > 1 ==> {
        &&& m >= 0
        &&& generates(previous, s, m)
        &&& discrepancy(previous, s, m) == failure
    }
}

/// Correcting a recurrence by the remembered one repairs its failure.
proof fn correction_generates(
    s: Seq<u64>,
    current: Seq<u64>,
    previous: Seq<u64>,
    failure: u64,
    d: u64,
    n: int,
    scale: u64,
    next: Seq<u64>,
)
    requires
        remembered(s, current, previous, failure, n),
        normalized(current),
        generates(current, s, n),
        discrepancy(current, s, n) == d,
        d != 0,
        0 <= n,
        product(scale, failure) == d,
        next == corrected(current, previous, scale, (n + 3 - current.len() - previous.len()) as nat),
        next.len() == if 2 * (current.len() - 1) <= n {
            n + 3 - current.len()
        } else {
            current.len() as int
        },
    ensures
        normalized(next),
        generates(next, s, n + 1),
{
    let shift = (n + 3 - current.len() - previous.len()) as nat;
    let m = current.len() + previous.len() - 3;
    let tail = scaled(scale, zeros(shift) + previous);
    product_zero(scale);
    assert(next[0] == current[0] ^ coefficient(tail, 0));
    assert(tail[0] == product(scale, 0));
    xor_zero(1);
    assert forall|j: int| next.len() - 1 <= j < n + 1 implies #[trigger] discrepancy(next, s, j)
        == 0 by {
        if current.len() == 1 {
            assert(next.len() == n + 2);
        } else {
            discrepancy_corrected(current, previous, scale, shift, s, j);
            if j == n {
                xor_self(d);
            } else {
                assert(discrepancy(current, s, j) == 0);
                assert(j - shift >= previous.len() - 1);
                assert(discrepancy(previous, s, j - shift) == 0);
                xor_zero(0);
            }
        }
    }
}

/// The shortest linear recurrence of a sequence, where its length is within
/// bounds and its last coefficient is not zero.
pub fn berlekamp_massey(syndromes: &[u64], max_degree: usize) -> (result: Option<Polynomial>)
    requires
        2 * syndromes.len() <= usize::MAX,
    ensures
        match result {
            Some(c) => {
                &&& recurrence_of(c@, syndromes@)
                &&& shortest(c@, syndromes@)
                &&& c@.last() != 0
                &&& c.len() <= max_degree + 1
            },
            None => {
                ||| forall|c: Seq<u64>| #[trigger]
                    recurrence_of(c, syndromes@) ==> c.len() > max_degree + 1
                ||| exists|c: Seq<u64>| #[trigger]
                    recurrence_of(c, syndromes@) && c.last() == 0 && shortest(c, syndromes@)
            },
        },
{
    let ghost s = syndromes@;
    let mut current: Polynomial = Vec::new();
    current.push(1);
    let mut previous: Polynomial = Vec::new();
    previous.push(1);
    let mut failure: u64 = 1;
    let mut n: usize = 0;
    while n < syndromes.len()
        invariant
            s == syndromes@,
            n <= syndromes.len(),
            2 * syndromes.len() <= usize::MAX,
            normalized(current@),
            current.len() <= n + 1,
            current.len() <= max_degree + 1,
            generates(current@, s, n as int),
            shortest(current@, s),
            remembered(s, current@, previous@, failure, n as int),
        decreases syndromes.len() - n,
    {
        let d: u64 = compute_discrepancy(&current, syndromes, n);
        if d == 0 {
            n = n + 1;
            continue;
        }
        let current_degree: usize = current.len() - 1;
        let previous_degree: usize = previous.len() - 1;
        let shift: usize = n + 1 - current_degree - previous_degree;
        let swap: bool = current_degree * 2 <= n;
        let ghost before = current@;
        let old_current: Polynomial = current.clone();
        proof {
            assert(old_current@ =~= before);
            assert forall|c: Seq<u64>| #[trigger] recurrence_of(c, s) implies c.len()
                + before.len() >= n + 3 by {
                assert(generates(c, s, n + 1));
                failure_forces_length(before, c, s, n as int);
            }
        }
        if swap {
            let new_len: usize = previous.len() + shift;
            if new_len - 1 > max_degree {
                return None;
            }
            current.resize(new_len, 0);
        }
        let inv: u64 = match gf64_inv(failure) {
            Some(inv) => inv,
            None => return None,
        };
        let scale: u64 = gf64_mul(d, inv);
        proof {
            product_assoc(d, inv, failure);
            product_comm(inv, failure);
            product_one(d);
        }
        let ghost widened = current@;
        let mut i: usize = 0;
        while i < previous.len()
            invariant
                i <= previous.len(),
                widened.len() == current.len(),
                previous.len() + shift <= current.len(),
                forall|k: int|
                    0 <= k < current.len() ==> #[trigger] current@[k] == if shift <= k < shift + i {
                        widened[k] ^ product(scale, previous@[k - shift])
                    } else {
                        widened[k]
                    },
            decreases previous.len() - i,
        {
            let target: usize = i + shift;
            let value: u64 = current[target] ^ gf64_mul(scale, previous[i]);
            current.set(target, value);
            i = i + 1;
        }
        proof {
            let tail = scaled(scale, zeros(shift as nat) + previous@);
            assert(current@ =~= corrected(before, previous@, scale, shift as nat)) by {
                assert forall|k: int| 0 <= k < current.len() implies #[trigger] current@[k]
                    == coefficient(before, k) ^ coefficient(tail, k) by {
                    product_zero(scale);
                    xor_zero(coefficient(before, k));
                    assert(widened[k] == coefficient(before, k));
                }
            }
            correction_generates(s, before, previous@, failure, d, n as int, scale, current@);
        }
        if swap {
            previous = old_current;
            failure = d;
        }
        n = n + 1;
    }
    proof {
        assert(recurrence_of(current@, s));
    }
    if current[current.len() - 1] != 0 {
        Some(current)
    } else {
        None
    }
}

/// Elements in ascending order, with repetitions.
pub open spec fn ascending(v: Seq<u64>) -> bool {
    forall|i: int, j: int| 0 <= i <= j < v.len() ==> v[i] <= v[j]
}

/// Sorts a vector in ascending order.
pub fn sort_ascending(v: &mut Vec<u64>)
    ensures
        ascending(final(v)@),
        final(v)@.to_multiset() =~= old(v)@.to_multiset(),
        final(v).len() == old(v).len(),
{
    let ghost start = v@;
    let mut done: usize = 0;
    while done < v.len()
        invariant
            done <= v.len(),
            v.len() == start.len(),
            ascending(v@.take(done as int)),
            v@.to_multiset() =~= start.to_multiset(),
        decreases v.len() - done,
    {
        let mut slot: usize = done;
        proof {
            assert forall|i: int, j: int| 0 <= i <= j < done implies v@[i] <= v@[j] by {
                assert(v@.take(done as int)[i] <= v@.take(done as int)[j]);
            }
        }
        while slot > 0 && v[slot - 1] > v[slot]
            invariant
                slot <= done < v.len(),
                v.len() == start.len(),
                v@.to_multiset() =~= start.to_multiset(),
                forall|i: int, j: int|
                    0 <= i <= j <= done && i != slot && j != slot ==> v@[i] <= v@[j],
                forall|j: int| slot < j <= done ==> v@[slot as int] <= v@[j],
            decreases slot,
        {
            let ghost before = v@;
            let upper: u64 = v[slot - 1];
            let lower: u64 = v[slot];
            v.set(slot - 1, lower);
            v.set(slot, upper);
            proof {
                swap_multiset(before, slot - 1, slot as int);
            }
            slot = slot - 1;
        }
        done = done + 1;
    }
    proof {
        assert(v@.take(done as int) =~= v@);
    }
}

/// Exchanging two elements keeps the multiset.
pub proof fn swap_multiset(v: Seq<u64>, i: int, j: int)
    requires
        0 <= i < v.len(),
        0 <= j < v.len(),
    ensures
        v.update(i, v[j]).update(j, v[i]).to_multiset() =~= v.to_multiset(),
{
    broadcast use vstd::seq_lib::group_to_multiset_ensures;

    vstd::seq_lib::to_multiset_update(v, i, v[j]);
    vstd::seq_lib::to_multiset_update(v.update(i, v[j]), j, v[i]);
}

/// Distinct nonzero elements.
pub open spec fn element_set(vs: Seq<u64>) -> bool {
    vs.no_duplicates() && !vs.contains(0)
}

/// The elements are the roots, with multiplicities, of the shortest recurrence
/// of the coordinates' power sums.
pub open spec fn locator_roots(odd: Seq<u64>, elements: Seq<u64>) -> bool {
    exists|c: Seq<u64>| #[trigger] is_locator(odd, c) && c.len() == elements.len() + 1 && forall|
        x: u64,
    | #[trigger]
        eval(c.reverse(), x) == root_product(elements, x)
}

/// The shortest recurrence of the coordinates' power sums.
pub open spec fn is_locator(odd: Seq<u64>, c: Seq<u64>) -> bool {
    recurrence_of(c, full_syndromes(odd)) && shortest(c, full_syndromes(odd))
}

/// The sum of squares grows with its bound.
pub proof fn pyramid_monotone(a: nat, b: nat)
    requires
        a <= b,
    ensures
        square_pyramid(a) <= square_pyramid(b),
    decreases b,
{
    if a < b {
        pyramid_monotone(a, (b - 1) as nat);
    }
}

proof fn trial_cost_monotone(a: nat, b: nat)
    requires
        a <= b,
    ensures
        trial_cost(a) <= trial_cost(b),
{
    assert(a * a <= b * b) by (nonlinear_arith)
        requires
            0 <= a <= b,
    ;
}

/// The roots found of a polynomial that splits are the ones it splits over.
proof fn found_all(p: Seq<u64>, roots: Seq<u64>, found: Seq<u64>)
    requires
        splits(p, roots),
        found.len() == roots.len(),
        forall|x: u64| #[trigger] eval(p, x) == root_product(found, x),
    ensures
        found.to_multiset() =~= roots.to_multiset(),
{
    broadcast use vstd::seq_lib::group_to_multiset_ensures;

    assert(roots.to_set().subset_of(found.to_set())) by {
        assert forall|x: u64| roots.to_set().contains(x) implies found.to_set().contains(x) by {
            let i = choose|i: int| 0 <= i < roots.len() && roots[i] == x;
            assert(eval(p, roots[i]) == 0);
            assert(eval(p, x) == root_product(found, x));
            root_product_zero(found, x);
        }
    }
    roots.unique_seq_to_set();
    vstd::seq_lib::seq_to_set_is_finite(found);
    vstd::seq_lib::seq_to_set_is_finite(roots);
    vstd::set_lib::lemma_len_subset(roots.to_set(), found.to_set());
    found.lemma_cardinality_of_set();
    vstd::set_lib::lemma_subset_equality(roots.to_set(), found.to_set());
    found.lemma_no_dup_set_cardinality();
    found.lemma_multiset_has_no_duplicates();
    roots.lemma_multiset_has_no_duplicates();
    assert forall|x: u64| found.to_multiset().count(x) == roots.to_multiset().count(x) by {
        assert(found.contains(x) <==> found.to_set().contains(x));
        assert(roots.contains(x) <==> roots.to_set().contains(x));
        assert(found.to_multiset().contains(x) <==> found.contains(x));
        assert(roots.to_multiset().contains(x) <==> roots.contains(x));
    }
}

/// The work budget runs out in the search for the roots of the shortest
/// recurrence.
pub open spec fn exhausts(odd: Seq<u64>, max_elements: usize) -> bool {
    exists|c: Seq<u64>| #[trigger]
        is_locator(odd, c) && c.last() != 0 && c.len() <= max_elements + 1 && root_search(
            c.reverse(),
            MAX_FACTOR_WORK as nat,
            Err(AlgebraicError::BudgetExhausted),
        )
}

/// The search for the roots of a locator ends with what was found and the work left.
pub open spec fn search_ends(c: Seq<u64>, found: Seq<u64>, left: nat) -> bool {
    root_search(c.reverse(), MAX_FACTOR_WORK as nat, Ok((found, left)))
}

/// The elements are what the search for the roots of a shortest recurrence finds.
pub open spec fn search_gives(odd: Seq<u64>, elements: Seq<u64>) -> bool {
    exists|c: Seq<u64>, found: Seq<u64>, left: nat|
        is_locator(odd, c) && c.len() == elements.len() + 1 && c.last() != 0
            && #[trigger] search_ends(c, found, left) && found.to_multiset()
            == elements.to_multiset()
}

/// The search for the roots of a locator fails, and does not run out of work.
pub open spec fn search_fails_on(c: Seq<u64>) -> bool {
    &&& c.len() > 1
    &&& root_search(
        c.reverse(),
        MAX_FACTOR_WORK as nat,
        Err(AlgebraicError::DecodeFailure),
    )
    &&& forall|end: Result<(Seq<u64>, nat), AlgebraicError>| #[trigger]
        root_search(c.reverse(), MAX_FACTOR_WORK as nat, end) ==> end == Err::<
            (Seq<u64>, nat),
            AlgebraicError,
        >(AlgebraicError::DecodeFailure)
}

/// The coordinates stand for no elements that could be found: every shortest
/// recurrence is too long, or one has a zero at its end, or the search for its
/// roots fails. The shortest recurrence is the only one where there are enough
/// coordinates for its length, and then the search for its roots fails.
pub open spec fn no_roots(odd: Seq<u64>, max_elements: usize) -> bool {
    &&& {
        ||| forall|c: Seq<u64>| #[trigger] is_locator(odd, c) ==> c.len() > max_elements + 1
        ||| exists|c: Seq<u64>| #[trigger] is_locator(odd, c) && c.last() == 0
        ||| exists|c: Seq<u64>| #[trigger]
            is_locator(odd, c) && c.len() <= max_elements + 1 && search_fails_on(c)
    }
    &&& forall|c: Seq<u64>| #[trigger]
        is_locator(odd, c) && c.last() != 0 && c.len() <= max_elements + 1 && c.len() <= odd.len()
            + 1 ==> search_fails_on(c)
}

/// One locator whose search fails, or that ends in zero, decides where the locator
/// is the only one.
proof fn no_roots_from(odd: Seq<u64>, max_elements: usize, c: Seq<u64>)
    requires
        is_locator(odd, c),
        c.last() == 0 || c.len() <= max_elements + 1 && search_fails_on(c),
    ensures
        no_roots(odd, max_elements),
{
    assert forall|d: Seq<u64>| #[trigger]
        is_locator(odd, d) && d.last() != 0 && d.len() <= max_elements + 1 && d.len() <= odd.len()
            + 1 implies search_fails_on(d) by {
        shortest_unique(d, c, full_syndromes(odd));
    }
}

/// What decoding coordinates into at most `max_elements` may come to.
///
/// Elements are in ascending order, nonzero, and the roots of the shortest
/// recurrence. A set within bounds is recovered, unless the work budget runs
/// out, which takes more than the sufficient work.
pub open spec fn decode_outcome(
    odd: Seq<u64>,
    max_elements: usize,
    result: Result<Vec<u64>, AlgebraicError>,
) -> bool {
    &&& match result {
        Ok(elements) => {
            &&& ascending(elements@)
            &&& elements.len() <= max_elements
            &&& !elements@.contains(0)
            &&& locator_roots(odd, elements@)
            &&& search_gives(odd, elements@)
        },
        Err(AlgebraicError::DecodeFailure) => no_roots(odd, max_elements),
        Err(AlgebraicError::BudgetExhausted) => MAX_FACTOR_WORK < sufficient_work(
            max_elements as nat,
        ) && exhausts(odd, max_elements),
        Err(_) => false,
    }
    &&& forall|vs: Seq<u64>|
        #![trigger sketch_of(vs, odd)]
        element_set(vs) && sketch_of(vs, odd) && vs.len() <= max_elements && vs.len() <= odd.len()
            ==> match result {
            Ok(elements) => elements@.to_multiset() =~= vs.to_multiset(),
            Err(AlgebraicError::BudgetExhausted) => true,
            Err(_) => trial_cost(max_elements as nat) > usize::MAX,
        }
}

/// Decoding has one result, where there are as many coordinates as elements may be
/// found: success, a failure and a lack of work exclude each other, and the
/// elements are determined.
pub proof fn decoding_determined(
    odd: Seq<u64>,
    max_elements: usize,
    a: Result<Vec<u64>, AlgebraicError>,
    b: Result<Vec<u64>, AlgebraicError>,
)
    requires
        max_elements <= odd.len(),
        decode_outcome(odd, max_elements, a),
        decode_outcome(odd, max_elements, b),
    ensures
        match (a, b) {
            (Ok(x), Ok(y)) => x@ == y@,
            (Err(x), Err(y)) => x == y,
            _ => false,
        },
{
    match (a, b) {
        (Ok(x), Ok(y)) => {
            same_elements(odd, x@, y@);
        },
        (Ok(x), Err(_)) => {
            success_excludes(odd, max_elements, x@);
        },
        (Err(_), Ok(y)) => {
            success_excludes(odd, max_elements, y@);
        },
        (Err(x), Err(y)) => {
            if x != y {
                failure_excludes(odd, max_elements);
            }
        },
    }
}

/// Ascending lists of the same elements are equal.
pub proof fn ascending_unique(a: Seq<u64>, b: Seq<u64>)
    requires
        ascending(a),
        ascending(b),
        a.to_multiset() =~= b.to_multiset(),
    ensures
        a == b,
    decreases a.len(),
{
    broadcast use vstd::seq_lib::group_to_multiset_ensures;

    assert(a.len() == a.to_multiset().len() && b.len() == b.to_multiset().len());
    if a.len() > 0 {
        let (x, y) = (a.last(), b.last());
        vstd::seq_lib::to_multiset_contains(a, y);
        vstd::seq_lib::to_multiset_contains(b, x);
        vstd::seq_lib::to_multiset_contains(a, x);
        vstd::seq_lib::to_multiset_contains(b, y);
        assert(a.contains(x) && b.contains(y));
        let i = choose|i: int| 0 <= i < a.len() && a[i] == y;
        let j = choose|j: int| 0 <= j < b.len() && b[j] == x;
        assert(a[i] <= a[a.len() - 1]);
        assert(b[j] <= b[b.len() - 1]);
        assert(x == y);
        assert(a =~= a.drop_last().push(x));
        assert(b =~= b.drop_last().push(x));
        assert(a.drop_last().to_multiset() =~= a.to_multiset().remove(x));
        assert(b.drop_last().to_multiset() =~= b.to_multiset().remove(x));
        ascending_unique(a.drop_last(), b.drop_last());
    }
}

proof fn same_elements(odd: Seq<u64>, x: Seq<u64>, y: Seq<u64>)
    requires
        search_gives(odd, x),
        search_gives(odd, y),
        x.len() <= odd.len(),
        ascending(x),
        ascending(y),
    ensures
        x == y,
{
    let (c, found, left) = choose|c: Seq<u64>, found: Seq<u64>, left: nat|
        is_locator(odd, c) && c.len() == x.len() + 1 && c.last() != 0
            && #[trigger] search_ends(c, found, left) && found.to_multiset() == x.to_multiset();
    let (d, other, more) = choose|c: Seq<u64>, found: Seq<u64>, left: nat|
        is_locator(odd, c) && c.len() == y.len() + 1 && c.last() != 0
            && #[trigger] search_ends(c, found, left) && found.to_multiset() == y.to_multiset();
    shortest_unique(c, d, full_syndromes(odd));
    root_search_unique(
        c.reverse(),
        MAX_FACTOR_WORK as nat,
        Ok((found, left)),
        Ok((other, more)),
    );
    ascending_unique(x, y);
}

/// A search that finds the elements neither fails nor runs out of work.
pub proof fn success_excludes(odd: Seq<u64>, max_elements: usize, x: Seq<u64>)
    requires
        max_elements <= odd.len(),
        x.len() <= max_elements,
        search_gives(odd, x),
    ensures
        !no_roots(odd, max_elements),
        !exhausts(odd, max_elements),
{
    let (c, found, left) = choose|c: Seq<u64>, found: Seq<u64>, left: nat|
        is_locator(odd, c) && c.len() == x.len() + 1 && c.last() != 0
            && #[trigger] search_ends(c, found, left) && found.to_multiset() == x.to_multiset();
    let success = Ok::<(Seq<u64>, nat), AlgebraicError>((found, left));
    if no_roots(odd, max_elements) {
        assert(search_fails_on(c));
        assert(root_search(c.reverse(), MAX_FACTOR_WORK as nat, success));
    }
    if exhausts(odd, max_elements) {
        let failure = Err::<(Seq<u64>, nat), AlgebraicError>(AlgebraicError::BudgetExhausted);
        let d = choose|d: Seq<u64>| #[trigger]
            is_locator(odd, d) && d.last() != 0 && d.len() <= max_elements + 1 && root_search(
                d.reverse(),
                MAX_FACTOR_WORK as nat,
                failure,
            );
        shortest_unique(c, d, full_syndromes(odd));
        root_search_unique(c.reverse(), MAX_FACTOR_WORK as nat, success, failure);
    }
}

/// A search that fails does not run out of work.
pub proof fn failure_excludes(odd: Seq<u64>, max_elements: usize)
    requires
        max_elements <= odd.len(),
        no_roots(odd, max_elements),
    ensures
        !exhausts(odd, max_elements),
{
    if exhausts(odd, max_elements) {
        let failure = Err::<(Seq<u64>, nat), AlgebraicError>(AlgebraicError::BudgetExhausted);
        let c = choose|c: Seq<u64>| #[trigger]
            is_locator(odd, c) && c.last() != 0 && c.len() <= max_elements + 1 && root_search(
                c.reverse(),
                MAX_FACTOR_WORK as nat,
                failure,
            );
        assert(search_fails_on(c));
        assert(root_search(c.reverse(), MAX_FACTOR_WORK as nat, failure));
    }
}

/// Coordinates determine the set that they are the sketch of, among the sets
/// of no more elements than there are coordinates.
pub proof fn sketch_determines_set(vs: Seq<u64>, ws: Seq<u64>, odd: Seq<u64>)
    requires
        element_set(vs),
        element_set(ws),
        vs.len() <= odd.len(),
        ws.len() <= odd.len(),
        sketch_of(vs, odd),
        sketch_of(ws, odd),
    ensures
        vs.to_multiset() =~= ws.to_multiset(),
{
    if vs.len() <= ws.len() {
        shorter_determines(vs, ws, odd);
    } else {
        shorter_determines(ws, vs, odd);
    }
}

proof fn shorter_determines(vs: Seq<u64>, ws: Seq<u64>, odd: Seq<u64>)
    requires
        element_set(ws),
        vs.len() <= ws.len() <= odd.len(),
        sketch_of(vs, odd),
        sketch_of(ws, odd),
    ensures
        vs.to_multiset() =~= ws.to_multiset(),
{
    let all = full_syndromes(odd);
    full_syndromes_sums(odd, vs);
    full_syndromes_sums(odd, ws);
    locator_generates(vs, all);
    let c = from_roots(vs).reverse();
    recurrence_is_locator(c, ws, all);
    assert(c.reverse() =~= from_roots(vs));
    from_roots_facts(vs, 0);
    assert forall|x: u64| #[trigger] eval(from_roots(vs), x) == root_product(vs, x) by {
        from_roots_facts(vs, x);
    }
    found_all(from_roots(vs), ws, vs);
}

/// Whether zero is among the elements.
fn contains_zero(elements: &Vec<u64>) -> (result: bool)
    ensures
        result == elements@.contains(0),
{
    let mut index: usize = 0;
    while index < elements.len()
        invariant
            index <= elements.len(),
            forall|i: int| 0 <= i < index ==> elements@[i] != 0,
        decreases elements.len() - index,
    {
        if elements[index] == 0 {
            return true;
        }
        index = index + 1;
    }
    false
}

/// Decodes odd power sums into the elements they stand for.
///
/// Every set of at most `max_elements` nonzero elements, and of no more than
/// there are coordinates, is recovered in ascending order, unless the work
/// budget runs out.
pub fn decode(odd_syndromes: &[u64], max_elements: usize) -> (result: Result<
    Vec<u64>,
    AlgebraicError,
>)
    requires
        4 * odd_syndromes.len() <= usize::MAX,
    ensures
        decode_outcome(odd_syndromes@, max_elements, result),
{
    let ghost odd = odd_syndromes@;
    let all: Vec<u64> = reconstruct_syndromes(odd_syndromes);
    let mut locator: Polynomial = match berlekamp_massey(all.as_slice(), max_elements) {
        Some(locator) => locator,
        None => {
            proof {
                assert forall|vs: Seq<u64>|
                    #![trigger sketch_of(vs, odd_syndromes@)]
                    !(element_set(vs) && sketch_of(vs, odd) && vs.len() <= max_elements && vs.len()
                        <= odd.len()) by {
                    if element_set(vs) && sketch_of(vs, odd) && vs.len() <= max_elements
                        && vs.len() <= odd.len() {
                        full_syndromes_sums(odd, vs);
                        locator_generates(vs, all@);
                        let d = from_roots(vs).reverse();
                        assert(recurrence_of(d, all@));
                        assert(d.len() <= max_elements + 1);
                        let c = choose|c: Seq<u64>| #[trigger]
                            recurrence_of(c, all@) && c.last() == 0 && shortest(c, all@);
                        assert(c.len() <= d.len());
                        recurrence_is_locator(c, vs, all@);
                    }
                }
                if exists|c: Seq<u64>| #[trigger]
                    recurrence_of(c, all@) && c.last() == 0 && shortest(c, all@) {
                    let c = choose|c: Seq<u64>| #[trigger]
                        recurrence_of(c, all@) && c.last() == 0 && shortest(c, all@);
                    assert(is_locator(odd, c));
                    no_roots_from(odd, max_elements, c);
                } else {
                    assert forall|c: Seq<u64>| #[trigger] is_locator(odd, c) implies c.len()
                        > max_elements + 1 by {
                        assert(recurrence_of(c, all@));
                    }
                }
            }
            return Err(AlgebraicError::DecodeFailure);
        },
    };
    let ghost c = locator@;
    proof {
        assert(is_locator(odd, c));
        assert forall|vs: Seq<u64>|
            #![trigger sketch_of(vs, odd)]
            element_set(vs) && sketch_of(vs, odd) && vs.len() <= max_elements && vs.len()
                <= odd.len() implies splits(c.reverse(), vs) by {
            full_syndromes_sums(odd, vs);
            locator_generates(vs, all@);
            let d = from_roots(vs).reverse();
            assert(recurrence_of(d, all@));
            recurrence_is_locator(c, vs, all@);
        }
    }
    if locator.len() == 1 {
        let none: Vec<u64> = Vec::new();
        proof {
            assert(c.reverse() =~= from_roots(Seq::empty()));
            assert forall|x: u64| #[trigger] eval(c.reverse(), x) == root_product(none@, x) by {
                from_roots_facts(Seq::empty(), x);
            }
            assert forall|vs: Seq<u64>|
                #![trigger sketch_of(vs, odd_syndromes@)]
                element_set(vs) && sketch_of(vs, odd_syndromes@) && vs.len() <= max_elements
                    && vs.len() <= odd_syndromes.len() implies none@.to_multiset()
                =~= vs.to_multiset() by {
                assert(splits(c.reverse(), vs));
                assert(vs =~= none@);
            }
        }
        proof {
            assert(search_runs(
                seq![c.reverse()],
                Seq::empty(),
                MAX_FACTOR_WORK as nat,
                Ok((none@, MAX_FACTOR_WORK as nat)),
                1,
            )) by {
                reveal_with_fuel(search_runs, 2);
                assert(seq![c.reverse()].drop_last() =~= Seq::<Seq<u64>>::empty());
                assert(none@ =~= Seq::<u64>::empty());
            }
            assert(search_ends(c, none@, MAX_FACTOR_WORK as nat));
        }
        return Ok(none);
    }
    reverse(&mut locator);
    let expected: usize = locator.len() - 1;
    let mut roots: Vec<u64> = Vec::new();
    proof {
        pyramid_monotone(expected as nat, max_elements as nat);
        trial_cost_monotone(expected as nat, max_elements as nat);
    }
    let ghost p = locator@;
    match find_roots(locator, &mut roots) {
        Ok(_) => {},
        Err(error) => {
            proof {
                if error == AlgebraicError::DecodeFailure {
                    let failed = Err::<(Seq<u64>, nat), AlgebraicError>(error);
                    assert forall|end: Result<(Seq<u64>, nat), AlgebraicError>| #[trigger]
                        root_search(p, MAX_FACTOR_WORK as nat, end) implies end == failed by {
                        root_search_unique(p, MAX_FACTOR_WORK as nat, end, failed);
                    }
                    no_roots_from(odd, max_elements, c);
                }
            }
            return Err(error);
        },
    }
    proof {
        assert(roots@.skip(0) =~= roots@);
    }
    let ghost found = roots@;
    if roots.len() != expected || contains_zero(&roots) {
        proof {
            assert(eval(p, 0) == root_product(found, 0));
            root_product_zero(found, 0);
            product_zero(eval(p.drop_first(), 0));
            xor_zero(p[0]);
        }
        return Err(AlgebraicError::DecodeFailure);
    }
    sort_ascending(&mut roots);
    proof {
        broadcast use vstd::seq_lib::group_to_multiset_ensures;

        assert forall|x: u64| #[trigger] eval(p, x) == root_product(roots@, x) by {
            root_product_permuted(found, roots@, x);
        }
        let left = choose|left: nat| #[trigger]
            root_search(p, MAX_FACTOR_WORK as nat, Ok((found, left)));
        assert(search_ends(c, found, left));
        assert(found.to_multiset() == roots@.to_multiset());
        assert(!roots@.contains(0)) by {
            assert(found.to_multiset().contains(0) <==> found.contains(0));
            assert(roots@.to_multiset().contains(0) <==> roots@.contains(0));
        }
        assert forall|vs: Seq<u64>|
            #![trigger sketch_of(vs, odd_syndromes@)]
            element_set(vs) && sketch_of(vs, odd_syndromes@) && vs.len() <= max_elements
                && vs.len() <= odd_syndromes.len() implies roots@.to_multiset()
            =~= vs.to_multiset() by {
            found_all(p, vs, found);
        }
    }
    Ok(roots)
}

/// Reverses the coefficients of a polynomial.
fn reverse(poly: &mut Polynomial)
    ensures
        final(poly)@ == old(poly)@.reverse(),
{
    let mut result: Polynomial = Vec::new();
    let mut left: usize = poly.len();
    while left > 0
        invariant
            left <= poly.len(),
            result.len() == poly.len() - left,
            forall|i: int| 0 <= i < result.len() ==> #[trigger] result@[i] == poly@[poly.len() - 1
                - i],
        decreases left,
    {
        left = left - 1;
        result.push(poly[left]);
    }
    proof {
        assert(result@ =~= poly@.reverse());
    }
    *poly = result;
}

/// A root product does not depend on the order of the roots.
proof fn root_product_permuted(a: Seq<u64>, b: Seq<u64>, x: u64)
    requires
        a.to_multiset() =~= b.to_multiset(),
    ensures
        root_product(a, x) == root_product(b, x),
    decreases a.len(),
{
    broadcast use vstd::seq_lib::group_to_multiset_ensures;

    assert(a.len() == a.to_multiset().len() && b.len() == b.to_multiset().len());
    if a.len() > 0 {
        let r = a.last();
        let init = a.drop_last();
        assert(a =~= init.push(r));
        assert(a.to_multiset().contains(r)) by {
            assert(a[a.len() - 1] == r);
        }
        assert(b.contains(r));
        let k = choose|k: int| 0 <= k < b.len() && b[k] == r;
        let rest = b.remove(k);
        assert(rest.to_multiset() =~= b.to_multiset().remove(r));
        assert(init.to_multiset() =~= a.to_multiset().remove(r));
        root_product_permuted(init, rest, x);
        root_product_removed(b, k, x);
    }
}

proof fn root_product_removed(roots: Seq<u64>, k: int, x: u64)
    requires
        0 <= k < roots.len(),
    ensures
        root_product(roots, x) == product(root_product(roots.remove(k), x), x ^ roots[k]),
    decreases roots.len(),
{
    let last = roots.len() - 1;
    if k == last {
        assert(roots.remove(k) =~= roots.drop_last());
    } else {
        let init = roots.drop_last();
        root_product_removed(init, k, x);
        let rest = roots.remove(k);
        assert(rest.drop_last() =~= init.remove(k));
        assert(rest.last() == roots.last());
        let a = root_product(init.remove(k), x);
        let u = x ^ roots[k];
        let v = x ^ roots.last();
        product_assoc(a, u, v);
        product_comm(u, v);
        product_assoc(a, v, u);
    }
}

} // verus!
