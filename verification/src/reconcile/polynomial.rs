//! Polynomials over the binary field, as sequences of coefficients with the
//! constant term first.
//!
//! A polynomial is studied through its values: two polynomials that are shorter
//! than the number of points at which they agree have the same coefficients.

use vstd::prelude::*;
use super::field::{
    no_zero_divisors, power, product, product_add_left, product_add_right, product_assoc,
    product_comm, product_exchange, product_one, product_zero, square, square_add, xor_assoc,
    xor_cancel, xor_comm, xor_exchange, xor_self, xor_zero,
};

verus! {

/// The value of a polynomial at `x`.
pub open spec fn eval(p: Seq<u64>, x: u64) -> u64
    decreases p.len(),
{
    if p.len() == 0 {
        0
    } else {
        p[0] ^ product(x, eval(p.drop_first(), x))
    }
}

/// The zero polynomial of `n` coefficients.
pub open spec fn zeros(n: nat) -> Seq<u64> {
    Seq::new(n, |i: int| 0u64)
}

/// Every coefficient is zero.
pub open spec fn is_zero(p: Seq<u64>) -> bool {
    forall|i: int| 0 <= i < p.len() ==> #[trigger] p[i] == 0
}

/// The sum of two polynomials of one length.
pub open spec fn sum(p: Seq<u64>, q: Seq<u64>) -> Seq<u64> {
    Seq::new(p.len(), |i: int| p[i] ^ q[i])
}

/// A polynomial times a constant.
pub open spec fn scaled(c: u64, p: Seq<u64>) -> Seq<u64> {
    Seq::new(p.len(), |i: int| product(c, p[i]))
}

/// A polynomial whose leading coefficient is one.
pub open spec fn monic(p: Seq<u64>) -> bool {
    p.len() > 0 && p[p.len() - 1] == 1
}

/// A polynomial without superfluous leading zeros.
pub open spec fn trimmed(p: Seq<u64>) -> bool {
    p.len() > 0 ==> p[p.len() - 1] != 0
}

/// The product of `x + r` over the listed roots.
pub open spec fn root_product(roots: Seq<u64>, x: u64) -> u64
    decreases roots.len(),
{
    if roots.len() == 0 {
        1
    } else {
        product(root_product(roots.drop_last(), x), x ^ roots.last())
    }
}

/// Every listed element is a root.
pub open spec fn vanishes(p: Seq<u64>, roots: Seq<u64>) -> bool {
    forall|i: int| 0 <= i < roots.len() ==> eval(p, #[trigger] roots[i]) == 0
}

/// A monic polynomial that is the product of distinct linear factors.
pub open spec fn splits(p: Seq<u64>, roots: Seq<u64>) -> bool {
    &&& roots.no_duplicates()
    &&& p.len() == roots.len() + 1
    &&& monic(p)
    &&& vanishes(p, roots)
}

/// `p = q * d + r` as polynomial functions.
pub open spec fn divided(p: Seq<u64>, d: Seq<u64>, q: Seq<u64>, r: Seq<u64>) -> bool {
    forall|x: u64| #[trigger] eval(p, x) == product(eval(q, x), eval(d, x)) ^ eval(r, x)
}

/// `p = q * d` with degrees that add up.
pub open spec fn multiple(p: Seq<u64>, d: Seq<u64>, q: Seq<u64>) -> bool {
    &&& q.len() == 0 || d.len() + q.len() <= p.len() + 1
    &&& forall|x: u64| #[trigger] eval(p, x) == product(eval(q, x), eval(d, x))
}

/// `d` divides `p`.
pub open spec fn divides(d: Seq<u64>, p: Seq<u64>) -> bool {
    exists|q: Seq<u64>| multiple(p, d, q)
}

/// A further leading coefficient adds its term.
pub proof fn eval_push(p: Seq<u64>, c: u64, x: u64)
    ensures
        eval(p.push(c), x) == eval(p, x) ^ product(c, power(x, p.len())),
    decreases p.len(),
{
    if p.len() == 0 {
        assert(p.push(c).drop_first() =~= Seq::<u64>::empty());
        assert(eval(Seq::<u64>::empty(), x) == 0);
        product_zero(x);
        product_one(c);
        xor_zero(c);
    } else {
        let t = p.drop_first();
        eval_push(t, c, x);
        assert(p.push(c).drop_first() =~= t.push(c));
        let w = power(x, t.len());
        product_add_right(x, eval(t, x), product(c, w));
        product_assoc(c, w, x);
        product_comm(x, product(c, w));
        xor_assoc(p[0], product(x, eval(t, x)), product(product(c, w), x));
    }
}

/// The value of a sum is the sum of the values.
pub proof fn eval_sum(p: Seq<u64>, q: Seq<u64>, x: u64)
    requires
        p.len() == q.len(),
    ensures
        eval(sum(p, q), x) == eval(p, x) ^ eval(q, x),
    decreases p.len(),
{
    if p.len() == 0 {
        xor_zero(0);
    } else {
        let s = p.drop_first();
        let t = q.drop_first();
        eval_sum(s, t, x);
        assert(sum(p, q).drop_first() =~= sum(s, t));
        product_add_right(x, eval(s, x), eval(t, x));
        xor_exchange(p[0], q[0], product(x, eval(s, x)), product(x, eval(t, x)));
    }
}

/// Scaling a polynomial scales its values.
pub proof fn eval_scaled(c: u64, p: Seq<u64>, x: u64)
    ensures
        eval(scaled(c, p), x) == product(c, eval(p, x)),
    decreases p.len(),
{
    if p.len() == 0 {
        product_zero(c);
    } else {
        let s = p.drop_first();
        eval_scaled(c, s, x);
        assert(scaled(c, p).drop_first() =~= scaled(c, s));
        product_add_right(c, p[0], product(x, eval(s, x)));
        product_assoc(c, x, eval(s, x));
        product_comm(c, x);
        product_assoc(x, c, eval(s, x));
    }
}

/// Coefficients put behind others are shifted by as many powers.
pub proof fn eval_concat(p: Seq<u64>, q: Seq<u64>, x: u64)
    ensures
        eval(p + q, x) == eval(p, x) ^ product(power(x, p.len()), eval(q, x)),
    decreases p.len(),
{
    if p.len() == 0 {
        assert(p + q =~= q);
        product_one(eval(q, x));
        xor_zero(eval(q, x));
    } else {
        let s = p.drop_first();
        eval_concat(s, q, x);
        assert((p + q).drop_first() =~= s + q);
        let w = power(x, s.len());
        let e = eval(q, x);
        product_add_right(x, eval(s, x), product(w, e));
        product_assoc(x, w, e);
        product_comm(x, w);
        xor_assoc(p[0], product(x, eval(s, x)), product(x, product(w, e)));
    }
}

/// A polynomial with zero coefficients vanishes.
pub proof fn eval_zero(p: Seq<u64>, x: u64)
    requires
        is_zero(p),
    ensures
        eval(p, x) == 0,
    decreases p.len(),
{
    if p.len() > 0 {
        let t = p.drop_first();
        assert(is_zero(t));
        eval_zero(t, x);
        product_zero(x);
        xor_zero(0);
    }
}

/// Dropping a zero leading coefficient keeps the value.
pub proof fn eval_drop_last(p: Seq<u64>, x: u64)
    requires
        p.len() > 0,
        p.last() == 0,
    ensures
        eval(p.drop_last(), x) == eval(p, x),
{
    eval_push(p.drop_last(), 0, x);
    assert(p.drop_last().push(0) =~= p);
    product_zero(power(x, p.drop_last().len()));
    xor_zero(eval(p.drop_last(), x));
}

/// Multiplying by a power of `x` prepends zeros.
pub proof fn eval_shift(n: nat, p: Seq<u64>, x: u64)
    ensures
        eval(zeros(n) + p, x) == product(power(x, n), eval(p, x)),
{
    eval_concat(zeros(n), p, x);
    eval_zero(zeros(n), x);
    xor_zero(product(power(x, n), eval(p, x)));
}

/// The coefficients of a square: squares at the even positions.
pub open spec fn squared(p: Seq<u64>) -> Seq<u64> {
    if p.len() == 0 {
        p
    } else {
        Seq::new(
            (2 * p.len() - 1) as nat,
            |i: int|
                if i % 2 == 0 {
                    square(p[i / 2])
                } else {
                    0
                },
        )
    }
}

/// Squaring a polynomial squares its values.
pub proof fn eval_squared(p: Seq<u64>, x: u64)
    ensures
        eval(squared(p), x) == square(eval(p, x)),
    decreases p.len(),
{
    product_zero(0);
    if p.len() == 1 {
        assert(squared(p).drop_first() =~= Seq::<u64>::empty());
        assert(p.drop_first() =~= Seq::<u64>::empty());
        assert(eval(Seq::<u64>::empty(), x) == 0);
        product_zero(x);
        xor_zero(p[0]);
        xor_zero(square(p[0]));
    } else if p.len() > 1 {
        let t = p.drop_first();
        eval_squared(t, x);
        let s = squared(p);
        assert(s.drop_first().drop_first() =~= squared(t)) by {
            assert forall|i: int| 0 <= i < squared(t).len() implies s[i + 2] == squared(t)[i] by {
                assert((i + 2) / 2 == i / 2 + 1);
            }
        }
        assert(s.drop_first()[0] == 0);
        let e = eval(t, x);
        xor_zero(product(x, square(e)));
        assert(eval(s.drop_first(), x) == product(x, square(e)));
        square_add(p[0], product(x, e));
        product_exchange(x, e, x, e);
        product_assoc(x, x, square(e));
    }
}

/// The quotient of `p - p(r)` by `x + r`.
pub open spec fn synthetic(p: Seq<u64>, r: u64) -> Seq<u64>
    decreases p.len(),
{
    if p.len() <= 1 {
        Seq::empty()
    } else {
        seq![eval(p.drop_first(), r)] + synthetic(p.drop_first(), r)
    }
}

proof fn synthetic_eval(p: Seq<u64>, r: u64, x: u64)
    ensures
        eval(p, x) == eval(p, r) ^ product(x ^ r, eval(synthetic(p, r), x)),
        p.len() > 0 ==> synthetic(p, r).len() == p.len() - 1,
    decreases p.len(),
{
    product_zero(x ^ r);
    product_zero(x);
    product_zero(r);
    if p.len() == 0 {
        xor_zero(0);
    } else if p.len() == 1 {
        assert(p.drop_first() =~= Seq::<u64>::empty());
        assert(eval(Seq::<u64>::empty(), x) == 0);
        assert(eval(Seq::<u64>::empty(), r) == 0);
        xor_zero(p[0]);
    } else {
        let t = p.drop_first();
        synthetic_eval(t, r, x);
        let q = synthetic(t, r);
        let s = synthetic(p, r);
        assert(s.drop_first() =~= q);
        let er = eval(t, r);
        let eq = eval(q, x);
        let d = x ^ r;
        let f = product(d, eq);
        // x * p'(x) = x * p'(r) + (x + r) * x * q(x)
        product_add_right(x, er, f);
        product_assoc(x, d, eq);
        product_comm(x, d);
        product_assoc(d, x, eq);
        // (x + r) * (p'(r) + x * q(x))
        product_add_right(d, er, product(x, eq));
        product_add_left(x, r, er);
        let a = p[0];
        let xe = product(x, er);
        let re = product(r, er);
        let g = product(d, product(x, eq));
        assert(eval(p, x) == a ^ (xe ^ g));
        assert(eval(p, r) == a ^ re);
        assert(product(d, eval(s, x)) == (xe ^ re) ^ g);
        xor_assoc(a, re, (xe ^ re) ^ g);
        xor_assoc(re, xe ^ re, g);
        xor_comm(xe, re);
        xor_cancel(re, xe);
    }
}

proof fn synthetic_zero(p: Seq<u64>, r: u64)
    requires
        is_zero(synthetic(p, r)),
        eval(p, r) == 0,
    ensures
        is_zero(p),
    decreases p.len(),
{
    product_zero(r);
    if p.len() == 1 {
        assert(p.drop_first() =~= Seq::<u64>::empty());
        assert(eval(Seq::<u64>::empty(), r) == 0);
        xor_zero(p[0]);
    } else if p.len() > 1 {
        let t = p.drop_first();
        let s = synthetic(p, r);
        assert(s[0] == 0);
        assert(s.drop_first() =~= synthetic(t, r));
        assert(is_zero(synthetic(t, r))) by {
            assert forall|i: int| 0 <= i < synthetic(t, r).len() implies synthetic(t, r)[i]
                == 0 by {
                assert(s[i + 1] == 0);
            }
        }
        synthetic_zero(t, r);
        xor_zero(p[0]);
        assert forall|i: int| 0 <= i < p.len() implies p[i] == 0 by {
            if i > 0 {
                assert(t[i - 1] == 0);
            }
        }
    }
}

/// A polynomial with as many distinct roots as coefficients is zero.
pub proof fn too_many_roots(p: Seq<u64>, roots: Seq<u64>)
    requires
        roots.no_duplicates(),
        vanishes(p, roots),
        p.len() <= roots.len(),
    ensures
        is_zero(p),
    decreases p.len(),
{
    if p.len() > 0 {
        let r = roots.last();
        let rest = roots.drop_last();
        let q = synthetic(p, r);
        synthetic_eval(p, r, r);
        assert(eval(p, roots[roots.len() - 1]) == 0);
        assert forall|i: int| 0 <= i < rest.len() implies eval(q, #[trigger] rest[i]) == 0 by {
            let x = roots[i];
            synthetic_eval(p, r, x);
            xor_zero(product(x ^ r, eval(q, x)));
            no_zero_divisors(x ^ r, eval(q, x));
            xor_cancel(x, r);
            assert(x != r);
        }
        too_many_roots(q, rest);
        synthetic_zero(p, r);
    }
}

/// Polynomials that agree at more points than they have coefficients are equal.
pub proof fn agreement(p: Seq<u64>, q: Seq<u64>, points: Seq<u64>)
    requires
        p.len() == q.len(),
        points.no_duplicates(),
        p.len() <= points.len(),
        forall|i: int| 0 <= i < points.len() ==> eval(p, #[trigger] points[i]) == eval(q, points[i]),
    ensures
        p =~= q,
{
    let d = sum(p, q);
    assert forall|i: int| 0 <= i < points.len() implies eval(d, #[trigger] points[i]) == 0 by {
        eval_sum(p, q, points[i]);
        xor_self(eval(p, points[i]));
    }
    too_many_roots(d, points);
    assert forall|i: int| 0 <= i < p.len() implies p[i] == q[i] by {
        assert(d[i] == 0);
        xor_cancel(p[i], q[i]);
    }
}

/// A root product vanishes exactly at its roots.
pub proof fn root_product_zero(roots: Seq<u64>, x: u64)
    ensures
        root_product(roots, x) == 0 <==> roots.contains(x),
    decreases roots.len(),
{
    if roots.len() > 0 {
        let init = roots.drop_last();
        let r = roots.last();
        root_product_zero(init, x);
        no_zero_divisors(root_product(init, x), x ^ r);
        xor_cancel(x, r);
        xor_self(x);
        if roots.contains(x) {
            let i = choose|i: int| 0 <= i < roots.len() && roots[i] == x;
            if i < roots.len() - 1 {
                assert(init[i] == x);
            } else {
                assert(x == r);
            }
        }
        if init.contains(x) {
            let i = choose|i: int| 0 <= i < init.len() && init[i] == x;
            assert(roots[i] == x);
        }
        if x == r {
            assert(roots[roots.len() - 1] == x);
        }
    }
}

/// A further root adds its linear factor.
pub proof fn root_product_push(roots: Seq<u64>, r: u64, x: u64)
    ensures
        root_product(roots.push(r), x) == product(root_product(roots, x), x ^ r),
{
    assert(roots.push(r).drop_last() =~= roots);
}

/// `p` times `x + r`, coefficient by coefficient.
pub open spec fn times_linear(p: Seq<u64>, r: u64) -> Seq<u64> {
    sum(zeros(1) + p, scaled(r, p.push(0)))
}

/// The coefficients of a root product.
pub open spec fn from_roots(roots: Seq<u64>) -> Seq<u64>
    decreases roots.len(),
{
    if roots.len() == 0 {
        seq![1u64]
    } else {
        times_linear(from_roots(roots.drop_last()), roots.last())
    }
}

/// A root product is a monic polynomial with one coefficient more than roots.
pub proof fn from_roots_facts(roots: Seq<u64>, x: u64)
    ensures
        eval(from_roots(roots), x) == root_product(roots, x),
        from_roots(roots).len() == roots.len() + 1,
        monic(from_roots(roots)),
    decreases roots.len(),
{
    if roots.len() == 0 {
        let p = seq![1u64];
        assert(p.drop_first() =~= Seq::<u64>::empty());
        assert(eval(Seq::<u64>::empty(), x) == 0);
        product_zero(x);
        xor_zero(1);
    } else {
        let init = roots.drop_last();
        let r = roots.last();
        let p = from_roots(init);
        from_roots_facts(init, x);
        let e = eval(p, x);
        eval_sum(zeros(1) + p, scaled(r, p.push(0)), x);
        eval_shift(1, p, x);
        eval_scaled(r, p.push(0), x);
        eval_drop_last(p.push(0), x);
        assert(p.push(0).drop_last() =~= p);
        assert(power(x, 1) == x) by {
            reveal_with_fuel(power, 2);
            product_one(x);
        }
        product_add_right(e, x, r);
        product_comm(x, e);
        product_comm(r, e);
        product_zero(r);
        let q = from_roots(roots);
        assert(q[q.len() - 1] == p[p.len() - 1] ^ product(r, 0));
        xor_zero(1);
    }
}

/// A coefficient, zero beyond the length.
pub open spec fn coefficient(p: Seq<u64>, i: int) -> u64 {
    if 0 <= i < p.len() {
        p[i]
    } else {
        0
    }
}

/// The sum of two polynomials of any lengths.
pub open spec fn padded_sum(p: Seq<u64>, q: Seq<u64>) -> Seq<u64> {
    Seq::new(
        if p.len() >= q.len() {
            p.len()
        } else {
            q.len()
        },
        |i: int| coefficient(p, i) ^ coefficient(q, i),
    )
}

proof fn eval_padding(p: Seq<u64>, n: nat, x: u64)
    ensures
        eval(p + zeros(n), x) == eval(p, x),
{
    eval_concat(p, zeros(n), x);
    eval_zero(zeros(n), x);
    product_zero(power(x, p.len()));
    xor_zero(eval(p, x));
}

/// The value of a sum of different lengths is the sum of the values.
pub proof fn eval_padded_sum(p: Seq<u64>, q: Seq<u64>, x: u64)
    ensures
        eval(padded_sum(p, q), x) == eval(p, x) ^ eval(q, x),
{
    if p.len() >= q.len() {
        let z = (p.len() - q.len()) as nat;
        eval_padding(q, z, x);
        eval_sum(p, q + zeros(z), x);
        assert(padded_sum(p, q) =~= sum(p, q + zeros(z)));
    } else {
        let z = (q.len() - p.len()) as nat;
        eval_padding(p, z, x);
        eval_sum(p + zeros(z), q, x);
        assert(padded_sum(p, q) =~= sum(p + zeros(z), q));
    }
}

/// The product of two polynomials, of length `p.len() + q.len() - 1`.
pub open spec fn times(p: Seq<u64>, q: Seq<u64>) -> Seq<u64>
    decreases p.len(),
{
    if p.len() == 0 || q.len() == 0 {
        Seq::empty()
    } else {
        padded_sum(scaled(p[0], q), zeros(1) + times(p.drop_first(), q))
    }
}

/// The value of a product is the product of the values.
pub proof fn eval_times(p: Seq<u64>, q: Seq<u64>, x: u64)
    ensures
        eval(times(p, q), x) == product(eval(p, x), eval(q, x)),
        p.len() > 0 && q.len() > 0 ==> times(p, q).len() == p.len() + q.len() - 1,
        p.len() == 0 || q.len() == 0 ==> times(p, q).len() == 0,
    decreases p.len(),
{
    if p.len() == 0 || q.len() == 0 {
        product_zero(eval(p, x));
        product_zero(eval(q, x));
    } else {
        let t = p.drop_first();
        eval_times(t, q, x);
        let a = scaled(p[0], q);
        let b = zeros(1) + times(t, q);
        eval_padded_sum(a, b, x);
        eval_scaled(p[0], q, x);
        eval_shift(1, times(t, q), x);
        assert(power(x, 1) == x) by {
            reveal_with_fuel(power, 2);
            product_one(x);
        }
        product_assoc(x, eval(t, x), eval(q, x));
        product_add_left(p[0], product(x, eval(t, x)), eval(q, x));
    }
}

/// The leading coefficient of a product is the product of the leading coefficients.
proof fn times_leading(p: Seq<u64>, q: Seq<u64>)
    requires
        p.len() > 0,
        q.len() > 0,
    ensures
        times(p, q).len() == p.len() + q.len() - 1,
        times(p, q).last() == product(p.last(), q.last()),
    decreases p.len(),
{
    eval_times(p, q, 0);
    let t = p.drop_first();
    eval_times(t, q, 0);
    let a = scaled(p[0], q);
    let b = zeros(1) + times(t, q);
    let r = times(p, q);
    let n = r.len() - 1;
    if t.len() == 0 {
        assert(r[n] == a[n] ^ coefficient(b, n));
        assert(coefficient(b, n) == 0);
        xor_zero(a[n]);
    } else {
        times_leading(t, q);
        assert(r[n] == coefficient(a, n) ^ coefficient(b, n));
        assert(coefficient(a, n) == 0);
        assert(b[n] == times(t, q)[n - 1]);
        xor_zero(b[n]);
    }
}

/// The first `n` field elements, all distinct.
pub open spec fn sample_points(n: nat) -> Seq<u64> {
    Seq::new(n, |i: int| i as u64)
}

/// A polynomial function that is zero everywhere has zero coefficients.
pub proof fn zero_everywhere(p: Seq<u64>)
    requires
        p.len() <= 0xffff_ffff_ffff_ffff,
        forall|x: u64| #[trigger] eval(p, x) == 0,
    ensures
        is_zero(p),
{
    too_many_roots(p, sample_points(p.len()));
}

/// A polynomial without its leading zeros.
spec fn stripped(p: Seq<u64>) -> Seq<u64>
    decreases p.len(),
{
    if p.len() > 0 && p.last() == 0 {
        stripped(p.drop_last())
    } else {
        p
    }
}

proof fn stripped_facts(p: Seq<u64>, x: u64)
    ensures
        eval(stripped(p), x) == eval(p, x),
        trimmed(stripped(p)),
        stripped(p).len() <= p.len(),
    decreases p.len(),
{
    if p.len() > 0 && p.last() == 0 {
        eval_drop_last(p, x);
        stripped_facts(p.drop_last(), x);
    }
}

/// Dividing a multiple of `d` by `d` leaves no remainder.
pub proof fn exact_division(p: Seq<u64>, d: Seq<u64>, q: Seq<u64>, r: Seq<u64>)
    requires
        divides(d, p),
        monic(d),
        divided(p, d, q, r),
        r.len() < d.len(),
        p.len() + d.len() + q.len() <= 0xffff_ffff_ffff_ffff,
    ensures
        is_zero(r),
        forall|x: u64| #[trigger] eval(p, x) == product(eval(q, x), eval(d, x)),
{
    let h = choose|h: Seq<u64>| multiple(p, d, h);
    let s = stripped(padded_sum(q, h));
    stripped_facts(padded_sum(q, h), 0);
    assert forall|x: u64| #[trigger] eval(r, x) == product(eval(s, x), eval(d, x)) by {
        stripped_facts(padded_sum(q, h), x);
        eval_padded_sum(q, h, x);
        assert(eval(p, x) == product(eval(h, x), eval(d, x)));
        assert(eval(p, x) == product(eval(q, x), eval(d, x)) ^ eval(r, x));
        product_add_left(eval(q, x), eval(h, x), eval(d, x));
        xor_cancel(product(eval(q, x), eval(d, x)), eval(r, x));
    }
    if s.len() > 0 {
        let m = times(s, d);
        times_leading(s, d);
        product_one(s.last());
        let padded = r + zeros((m.len() - r.len()) as nat);
        let points = sample_points(m.len());
        assert forall|i: int| 0 <= i < points.len() implies eval(m, #[trigger] points[i]) == eval(
            padded,
            points[i],
        ) by {
            eval_times(s, d, points[i]);
            eval_padding(r, (m.len() - r.len()) as nat, points[i]);
        }
        agreement(m, padded, points);
        assert(padded[m.len() - 1] == 0);
    }
    assert forall|x: u64| #[trigger] eval(r, x) == 0 by {
        assert(eval(s, x) == 0);
        product_zero(eval(d, x));
    }
    zero_everywhere(r);
    assert forall|x: u64| #[trigger] eval(p, x) == product(eval(q, x), eval(d, x)) by {
        assert(eval(r, x) == 0);
        xor_zero(product(eval(q, x), eval(d, x)));
    }
}

/// A multiple of a monic polynomial that is a shorter polynomial is zero.
proof fn multiple_too_short(s: Seq<u64>, d: Seq<u64>, r: Seq<u64>)
    requires
        monic(d),
        r.len() < d.len(),
        s.len() + d.len() <= 0xffff_ffff_ffff_ffff,
        forall|x: u64| #[trigger] eval(r, x) == product(eval(s, x), eval(d, x)),
    ensures
        forall|x: u64| #[trigger] eval(s, x) == 0,
        forall|x: u64| #[trigger] eval(r, x) == 0,
{
    let short = stripped(s);
    stripped_facts(s, 0);
    if short.len() > 0 {
        let m = times(short, d);
        times_leading(short, d);
        product_one(short.last());
        let padded = r + zeros((m.len() - r.len()) as nat);
        let points = sample_points(m.len());
        assert forall|i: int| 0 <= i < points.len() implies eval(m, #[trigger] points[i]) == eval(
            padded,
            points[i],
        ) by {
            eval_times(short, d, points[i]);
            stripped_facts(s, points[i]);
            eval_padding(r, (m.len() - r.len()) as nat, points[i]);
            assert(eval(r, points[i]) == product(eval(s, points[i]), eval(d, points[i])));
        }
        agreement(m, padded, points);
        assert(padded[m.len() - 1] == 0);
    }
    assert forall|x: u64| #[trigger] eval(s, x) == 0 by {
        stripped_facts(s, x);
    }
    assert forall|x: u64| #[trigger] eval(r, x) == 0 by {
        assert(eval(s, x) == 0);
        product_zero(eval(d, x));
    }
}

/// Polynomials without leading zeros that agree everywhere are equal.
pub proof fn trimmed_unique(p: Seq<u64>, q: Seq<u64>)
    requires
        trimmed(p),
        trimmed(q),
        p.len() <= 0xffff_ffff_ffff_ffff,
        q.len() <= 0xffff_ffff_ffff_ffff,
        forall|x: u64| #[trigger] eval(p, x) == eval(q, x),
    ensures
        p == q,
{
    let d = padded_sum(p, q);
    assert forall|x: u64| #[trigger] eval(d, x) == 0 by {
        eval_padded_sum(p, q, x);
        xor_self(eval(p, x));
    }
    zero_everywhere(d);
    if p.len() != q.len() {
        let last = d.len() - 1;
        assert(d[last] == 0);
        xor_zero(coefficient(p, last));
        xor_zero(coefficient(q, last));
    } else {
        assert forall|i: int| 0 <= i < p.len() implies p[i] == q[i] by {
            assert(d[i] == 0);
            xor_cancel(p[i], q[i]);
        }
        assert(p =~= q);
    }
}

/// Division by a monic polynomial has one remainder.
pub proof fn remainder_unique(
    p: Seq<u64>,
    d: Seq<u64>,
    q: Seq<u64>,
    r: Seq<u64>,
    other_q: Seq<u64>,
    other_r: Seq<u64>,
)
    requires
        monic(d),
        divided(p, d, q, r),
        divided(p, d, other_q, other_r),
        r.len() < d.len(),
        other_r.len() < d.len(),
        trimmed(r),
        trimmed(other_r),
        q.len() + other_q.len() + d.len() <= 0xffff_ffff_ffff_ffff,
    ensures
        r == other_r,
        forall|x: u64| #[trigger] eval(q, x) == eval(other_q, x),
{
    let s = padded_sum(q, other_q);
    let t = padded_sum(r, other_r);
    assert forall|x: u64| #[trigger] eval(t, x) == product(eval(s, x), eval(d, x)) by {
        eval_padded_sum(q, other_q, x);
        eval_padded_sum(r, other_r, x);
        let (a, b) = (product(eval(q, x), eval(d, x)), product(eval(other_q, x), eval(d, x)));
        product_add_left(eval(q, x), eval(other_q, x), eval(d, x));
        assert(eval(p, x) == a ^ eval(r, x));
        assert(eval(p, x) == b ^ eval(other_r, x));
        xor_exchange(a, eval(r, x), b, eval(other_r, x));
        xor_self(eval(p, x));
        xor_cancel(a ^ b, eval(r, x) ^ eval(other_r, x));
    }
    multiple_too_short(s, d, t);
    assert forall|x: u64| #[trigger] eval(r, x) == eval(other_r, x) by {
        eval_padded_sum(r, other_r, x);
        assert(eval(t, x) == 0);
        xor_cancel(eval(r, x), eval(other_r, x));
    }
    assert forall|x: u64| #[trigger] eval(q, x) == eval(other_q, x) by {
        eval_padded_sum(q, other_q, x);
        assert(eval(s, x) == 0);
        xor_cancel(eval(q, x), eval(other_q, x));
    }
    trimmed_unique(r, other_r);
}

/// Monic polynomials that divide each other are equal.
pub proof fn mutual_divisors(p: Seq<u64>, q: Seq<u64>)
    requires
        monic(p),
        monic(q),
        divides(p, q),
        divides(q, p),
        p.len() <= 0xffff_ffff_ffff_ffff,
        q.len() <= 0xffff_ffff_ffff_ffff,
    ensures
        p == q,
{
    divisor_not_longer(p, q);
    divisor_not_longer(q, p);
    let h = choose|h: Seq<u64>| multiple(q, p, h);
    let c = h[0];
    let product_of = scaled(c, p);
    assert(h.len() == 1);
    assert(h.drop_first() =~= Seq::<u64>::empty());
    assert forall|x: u64| #[trigger] eval(product_of, x) == eval(q, x) by {
        eval_scaled(c, p, x);
        assert(eval(h, x) == c) by {
            assert(eval(h.drop_first(), x) == 0);
            product_zero(x);
            xor_zero(c);
        }
        assert(eval(q, x) == product(eval(h, x), eval(p, x)));
    }
    agreement(product_of, q, sample_points(q.len()));
    product_one(c);
    assert(product_of[p.len() - 1] == product(c, 1));
    assert(c == 1);
    assert forall|i: int| 0 <= i < p.len() implies p[i] == q[i] by {
        product_one(p[i]);
    }
    assert(p =~= q);
}

/// A divisor of a monic polynomial is no longer than it, and the cofactor is no
/// empty polynomial.
pub proof fn divisor_not_longer(d: Seq<u64>, p: Seq<u64>)
    requires
        monic(p),
        divides(d, p),
        p.len() <= 0xffff_ffff_ffff_ffff,
    ensures
        d.len() <= p.len(),
        forall|h: Seq<u64>| #[trigger] multiple(p, d, h) ==> h.len() > 0,
{
    assert forall|h: Seq<u64>| #[trigger] multiple(p, d, h) implies h.len() > 0 by {
        if h.len() == 0 {
            assert forall|x: u64| #[trigger] eval(p, x) == 0 by {
                assert(eval(h, x) == 0);
                product_zero(eval(d, x));
            }
            zero_everywhere(p);
            assert(p[p.len() - 1] == 0);
        }
    }
    let h = choose|h: Seq<u64>| multiple(p, d, h);
    assert(multiple(p, d, h));
}

/// A divisor of the divisor and of the remainder divides the dividend.
pub proof fn divides_combination(
    f: Seq<u64>,
    p: Seq<u64>,
    d: Seq<u64>,
    q: Seq<u64>,
    r: Seq<u64>,
)
    requires
        divides(f, d),
        divides(f, r),
        divided(p, d, q, r),
        f.len() > 0,
        d.len() <= p.len(),
        r.len() <= d.len(),
        q.len() + d.len() <= p.len() + 1,
    ensures
        divides(f, p),
{
    let h = choose|h: Seq<u64>| multiple(d, f, h);
    let k = choose|k: Seq<u64>| multiple(r, f, k);
    let w = padded_sum(times(q, h), k);
    eval_times(q, h, 0);
    assert(multiple(p, f, w)) by {
        assert forall|x: u64| #[trigger] eval(p, x) == product(eval(w, x), eval(f, x)) by {
            eval_times(q, h, x);
            eval_padded_sum(times(q, h), k, x);
            assert(eval(d, x) == product(eval(h, x), eval(f, x)));
            assert(eval(r, x) == product(eval(k, x), eval(f, x)));
            product_assoc(eval(q, x), eval(h, x), eval(f, x));
            product_add_left(product(eval(q, x), eval(h, x)), eval(k, x), eval(f, x));
        }
    }
}

/// Every polynomial divides itself and the zero polynomial.
pub proof fn divides_self(p: Seq<u64>)
    ensures
        divides(p, p),
        divides(p, Seq::empty()),
{
    let one = seq![1u64];
    assert forall|x: u64| #[trigger] eval(p, x) == product(eval(one, x), eval(p, x)) by {
        from_roots_facts(Seq::empty(), x);
        product_one(eval(p, x));
    }
    assert(multiple(p, p, one));
    let none = Seq::<u64>::empty();
    assert forall|x: u64| #[trigger] eval(none, x) == product(eval(none, x), eval(p, x)) by {
        product_zero(eval(p, x));
    }
    assert(multiple(none, p, none));
}

/// Divisibility does not see a constant factor of the dividend.
pub proof fn divides_scaled(f: Seq<u64>, p: Seq<u64>, c: u64, inv: u64)
    requires
        product(c, inv) == 1,
        divides(f, scaled(inv, p)),
    ensures
        divides(f, p),
{
    let s = scaled(inv, p);
    let h = choose|h: Seq<u64>| multiple(s, f, h);
    let w = scaled(c, h);
    assert forall|x: u64| #[trigger] eval(p, x) == product(eval(w, x), eval(f, x)) by {
        eval_scaled(c, h, x);
        eval_scaled(inv, p, x);
        assert(eval(s, x) == product(eval(h, x), eval(f, x)));
        product_assoc(c, eval(h, x), eval(f, x));
        product_assoc(c, inv, eval(p, x));
        product_one(eval(p, x));
    }
    assert(multiple(p, f, w));
}

/// A constant factor keeps divisors.
pub proof fn divides_scaling(f: Seq<u64>, p: Seq<u64>, c: u64)
    requires
        divides(f, p),
    ensures
        divides(f, scaled(c, p)),
{
    let h = choose|h: Seq<u64>| multiple(p, f, h);
    let w = scaled(c, h);
    let s = scaled(c, p);
    assert forall|x: u64| #[trigger] eval(s, x) == product(eval(w, x), eval(f, x)) by {
        eval_scaled(c, h, x);
        eval_scaled(c, p, x);
        assert(eval(p, x) == product(eval(h, x), eval(f, x)));
        product_assoc(c, eval(h, x), eval(f, x));
    }
    assert(multiple(s, f, w));
}

/// A common divisor of the dividend and of the divisor divides the remainder.
pub proof fn divides_remainder(
    f: Seq<u64>,
    p: Seq<u64>,
    d: Seq<u64>,
    q: Seq<u64>,
    r: Seq<u64>,
)
    requires
        divides(f, p),
        divides(f, d),
        divided(p, d, q, r),
        f.len() > 0,
        f.last() != 0,
        d.len() <= p.len() <= u64::MAX,
        q.len() == 0 || q.len() + d.len() == p.len() + 1,
    ensures
        divides(f, r),
{
    let h = choose|h: Seq<u64>| multiple(p, f, h);
    let k = choose|k: Seq<u64>| multiple(d, f, k);
    let w = padded_sum(h, times(q, k));
    let s = stripped(w);
    eval_times(q, k, 0);
    stripped_facts(w, 0);
    assert forall|x: u64| #[trigger] eval(r, x) == product(eval(s, x), eval(f, x)) by {
        eval_times(q, k, x);
        eval_padded_sum(h, times(q, k), x);
        stripped_facts(w, x);
        assert(eval(p, x) == product(eval(h, x), eval(f, x)));
        assert(eval(d, x) == product(eval(k, x), eval(f, x)));
        assert(eval(p, x) == product(eval(q, x), eval(d, x)) ^ eval(r, x));
        product_assoc(eval(q, x), eval(k, x), eval(f, x));
        product_add_left(eval(h, x), product(eval(q, x), eval(k, x)), eval(f, x));
        xor_comm(product(eval(q, x), eval(d, x)), eval(r, x));
        xor_assoc(
            eval(r, x),
            product(eval(q, x), eval(d, x)),
            product(eval(q, x), eval(d, x)),
        );
        xor_self(product(eval(q, x), eval(d, x)));
        xor_zero(eval(r, x));
    }
    if s.len() > 0 {
        let m = times(s, f);
        times_leading(s, f);
        no_zero_divisors(s.last(), f.last());
        if m.len() > r.len() {
            let padded = r + zeros((m.len() - r.len()) as nat);
            let points = sample_points(m.len());
            assert forall|i: int| 0 <= i < points.len() implies eval(m, #[trigger] points[i])
                == eval(padded, points[i]) by {
                eval_times(s, f, points[i]);
                eval_padding(r, (m.len() - r.len()) as nat, points[i]);
            }
            agreement(m, padded, points);
            assert(padded[m.len() - 1] == 0);
        }
    }
    assert(multiple(r, f, s));
}

} // verus!
