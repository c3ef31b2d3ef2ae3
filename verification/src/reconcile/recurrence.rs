//! Linear recurrences and power sums over the binary field.
//!
//! The power sums of a set obey the recurrence whose coefficients are those of
//! the set's locator polynomial, and no shorter one.

use vstd::prelude::*;
use super::field::{
    inverse, inverse_product, no_zero_divisors, power, power_add, product, product_add_left,
    product_add_right, product_assoc, product_comm, product_one, product_zero, square, square_add,
    xor_assoc, xor_cancel, xor_comm, xor_exchange, xor_self, xor_zero,
};
use super::polynomial::{
    coefficient, eval, eval_push, from_roots, from_roots_facts, is_zero, padded_sum,
    root_product_zero, scaled, splits, too_many_roots, vanishes, zeros,
};

verus! {

/// The value of the recurrence `c` at position `n` of a sequence:
/// `c[0] s[n] + c[1] s[n - 1] + ..`, where the sequence is zero outside.
pub open spec fn discrepancy(c: Seq<u64>, s: Seq<u64>, n: int) -> u64
    decreases c.len(),
{
    if c.len() == 0 {
        0
    } else {
        product(c[0], coefficient(s, n)) ^ discrepancy(c.drop_first(), s, n - 1)
    }
}

/// The recurrence holds wherever it fits within the first `upto` positions.
pub open spec fn generates(c: Seq<u64>, s: Seq<u64>, upto: int) -> bool {
    forall|j: int| c.len() - 1 <= j < upto ==> #[trigger] discrepancy(c, s, j) == 0
}

/// A recurrence that expresses each position by the ones before it.
pub open spec fn normalized(c: Seq<u64>) -> bool {
    c.len() > 0 && c[0] == 1
}

/// A normalized recurrence that the whole sequence obeys.
pub open spec fn recurrence_of(c: Seq<u64>, s: Seq<u64>) -> bool {
    normalized(c) && generates(c, s, s.len() as int)
}

/// No recurrence for the whole sequence is shorter.
pub open spec fn shortest(c: Seq<u64>, s: Seq<u64>) -> bool {
    forall|d: Seq<u64>| #[trigger] recurrence_of(d, s) ==> c.len() <= d.len()
}

/// A further coefficient adds its term to the discrepancy.
pub proof fn discrepancy_push(c: Seq<u64>, x: u64, s: Seq<u64>, n: int)
    ensures
        discrepancy(c.push(x), s, n) == discrepancy(c, s, n) ^ product(
            x,
            coefficient(s, n - c.len()),
        ),
    decreases c.len(),
{
    if c.len() == 0 {
        assert(c.push(x).drop_first() =~= Seq::<u64>::empty());
        assert(discrepancy(Seq::<u64>::empty(), s, n - 1) == 0);
        xor_zero(product(x, coefficient(s, n)));
    } else {
        let t = c.drop_first();
        discrepancy_push(t, x, s, n - 1);
        assert(c.push(x).drop_first() =~= t.push(x));
        xor_assoc(
            product(c[0], coefficient(s, n)),
            discrepancy(t, s, n - 1),
            product(x, coefficient(s, n - c.len())),
        );
    }
}

proof fn discrepancy_sum(p: Seq<u64>, q: Seq<u64>, s: Seq<u64>, n: int)
    ensures
        discrepancy(padded_sum(p, q), s, n) == discrepancy(p, s, n) ^ discrepancy(q, s, n),
    decreases p.len() + q.len(),
{
    let r = padded_sum(p, q);
    if p.len() == 0 && q.len() == 0 {
        xor_zero(0);
    } else if p.len() == 0 {
        assert(r =~= q) by {
            assert forall|i: int| 0 <= i < q.len() implies r[i] == q[i] by {
                xor_zero(q[i]);
            }
        }
        xor_zero(discrepancy(q, s, n));
    } else if q.len() == 0 {
        assert(r =~= p) by {
            assert forall|i: int| 0 <= i < p.len() implies r[i] == p[i] by {
                xor_zero(p[i]);
            }
        }
        xor_zero(discrepancy(p, s, n));
    } else {
        let (a, b) = (p.drop_first(), q.drop_first());
        discrepancy_sum(a, b, s, n - 1);
        assert(r.drop_first() =~= padded_sum(a, b));
        let x = coefficient(s, n);
        product_add_left(p[0], q[0], x);
        xor_exchange(
            product(p[0], x),
            product(q[0], x),
            discrepancy(a, s, n - 1),
            discrepancy(b, s, n - 1),
        );
    }
}

proof fn discrepancy_scaled(k: u64, c: Seq<u64>, s: Seq<u64>, n: int)
    ensures
        discrepancy(scaled(k, c), s, n) == product(k, discrepancy(c, s, n)),
    decreases c.len(),
{
    if c.len() == 0 {
        product_zero(k);
    } else {
        let t = c.drop_first();
        discrepancy_scaled(k, t, s, n - 1);
        assert(scaled(k, c).drop_first() =~= scaled(k, t));
        product_assoc(k, c[0], coefficient(s, n));
        product_add_right(k, product(c[0], coefficient(s, n)), discrepancy(t, s, n - 1));
    }
}

proof fn discrepancy_shift(m: nat, c: Seq<u64>, s: Seq<u64>, n: int)
    ensures
        discrepancy(zeros(m) + c, s, n) == discrepancy(c, s, n - m),
    decreases m,
{
    if m == 0 {
        assert(zeros(0) + c =~= c);
    } else {
        let r = zeros(m) + c;
        let k = (m - 1) as nat;
        discrepancy_shift(k, c, s, n - 1);
        assert(r.drop_first() =~= zeros(k) + c);
        product_zero(coefficient(s, n));
        xor_zero(discrepancy(c, s, n - m));
    }
}

/// The corrected recurrence: its discrepancy is that of the current one plus a
/// multiple of that of the previous one.
pub open spec fn corrected(c: Seq<u64>, p: Seq<u64>, scale: u64, shift: nat) -> Seq<u64> {
    padded_sum(c, scaled(scale, zeros(shift) + p))
}

/// Adding a shifted, scaled recurrence changes the discrepancy by its own.
pub proof fn discrepancy_corrected(
    c: Seq<u64>,
    p: Seq<u64>,
    scale: u64,
    shift: nat,
    s: Seq<u64>,
    n: int,
)
    ensures
        discrepancy(corrected(c, p, scale, shift), s, n) == discrepancy(c, s, n) ^ product(
            scale,
            discrepancy(p, s, n - shift),
        ),
{
    discrepancy_sum(c, scaled(scale, zeros(shift) + p), s, n);
    discrepancy_scaled(scale, zeros(shift) + p, s, n);
    discrepancy_shift(shift, p, s, n);
}

/// Applying the recurrence `c` to the discrepancies of `d`.
spec fn composed(c: Seq<u64>, d: Seq<u64>, s: Seq<u64>, n: int) -> u64
    decreases c.len(),
{
    if c.len() == 0 {
        0
    } else {
        product(c[0], discrepancy(d, s, n)) ^ composed(c.drop_first(), d, s, n - 1)
    }
}

proof fn composed_step(c: Seq<u64>, d: Seq<u64>, s: Seq<u64>, n: int)
    requires
        d.len() > 0,
    ensures
        composed(c, d, s, n) == product(d[0], discrepancy(c, s, n)) ^ composed(
            c,
            d.drop_first(),
            s,
            n - 1,
        ),
    decreases c.len(),
{
    if c.len() == 0 {
        product_zero(d[0]);
        xor_zero(0);
    } else {
        let t = c.drop_first();
        let e = d.drop_first();
        composed_step(t, d, s, n - 1);
        let x = coefficient(s, n);
        let (c0, d0) = (c[0], d[0]);
        let de = discrepancy(e, s, n - 1);
        let dt = discrepancy(t, s, n - 1);
        let ct = composed(t, e, s, n - 2);
        product_add_right(c0, product(d0, x), de);
        product_add_right(d0, product(c0, x), dt);
        product_assoc(c0, d0, x);
        product_comm(c0, d0);
        product_assoc(d0, c0, x);
        let a = product(c0, product(d0, x));
        let b = product(c0, de);
        let f = product(d0, dt);
        // (a + b) + (f + ct) = (a + f) + (b + ct)
        xor_exchange(a, b, f, ct);
    }
}

proof fn composed_comm(c: Seq<u64>, d: Seq<u64>, s: Seq<u64>, n: int)
    ensures
        composed(c, d, s, n) == composed(d, c, s, n),
    decreases d.len(),
{
    if d.len() == 0 {
        composed_empty(c, d, s, n);
    } else {
        composed_step(c, d, s, n);
        composed_comm(c, d.drop_first(), s, n - 1);
    }
}

proof fn composed_empty(c: Seq<u64>, d: Seq<u64>, s: Seq<u64>, n: int)
    requires
        d.len() == 0,
    ensures
        composed(c, d, s, n) == 0,
    decreases c.len(),
{
    if c.len() > 0 {
        composed_empty(c.drop_first(), d, s, n - 1);
        product_zero(c[0]);
        xor_zero(0);
    }
}

proof fn composed_zero(c: Seq<u64>, d: Seq<u64>, s: Seq<u64>, n: int)
    requires
        forall|j: int| n - c.len() < j <= n ==> #[trigger] discrepancy(d, s, j) == 0,
    ensures
        composed(c, d, s, n) == 0,
    decreases c.len(),
{
    if c.len() > 0 {
        composed_zero(c.drop_first(), d, s, n - 1);
        product_zero(c[0]);
        xor_zero(0);
    }
}

/// A recurrence that continues where a given one fails is longer by as much as
/// the failure is late.
pub proof fn failure_forces_length(c: Seq<u64>, d: Seq<u64>, s: Seq<u64>, n: int)
    requires
        normalized(c),
        normalized(d),
        generates(c, s, n),
        discrepancy(c, s, n) != 0,
        generates(d, s, n + 1),
    ensures
        (d.len() - 1) + (c.len() - 1) >= n + 1,
{
    if (d.len() - 1) + (c.len() - 1) <= n {
        assert forall|j: int| n - c.len() < j <= n implies #[trigger] discrepancy(d, s, j)
            == 0 by {}
        composed_zero(c, d, s, n);
        composed_comm(c, d, s, n);
        let t = d.drop_first();
        assert forall|j: int| n - 1 - t.len() < j <= n - 1 implies #[trigger] discrepancy(
            c,
            s,
            j,
        ) == 0 by {}
        composed_zero(t, c, s, n - 1);
        product_one(discrepancy(c, s, n));
        xor_zero(discrepancy(c, s, n));
    }
}

/// The first place where a recurrence fails that fails somewhere.
proof fn earliest_failure(c: Seq<u64>, s: Seq<u64>, n: int) -> (at: int)
    requires
        c.len() > 0,
        c.len() - 1 <= n,
        discrepancy(c, s, n) != 0,
    ensures
        c.len() - 1 <= at <= n,
        discrepancy(c, s, at) != 0,
        generates(c, s, at),
    decreases n,
{
    if exists|j: int| c.len() - 1 <= j < n && #[trigger] discrepancy(c, s, j) != 0 {
        let j = choose|j: int| c.len() - 1 <= j < n && #[trigger] discrepancy(c, s, j) != 0;
        earliest_failure(c, s, j)
    } else {
        n
    }
}

/// The first coefficient of a polynomial that is not zero.
proof fn first_nonzero(p: Seq<u64>, from: int) -> (at: int)
    requires
        0 <= from <= p.len(),
        forall|i: int| 0 <= i < from ==> p[i] == 0,
        !is_zero(p),
    ensures
        from <= at < p.len(),
        p[at] != 0,
        forall|i: int| 0 <= i < at ==> p[i] == 0,
    decreases p.len() - from,
{
    if from < p.len() && p[from] == 0 {
        first_nonzero(p, from + 1)
    } else {
        from
    }
}

/// A sequence has only one shortest recurrence, where it is at least twice as long
/// as the recurrence.
pub proof fn shortest_unique(c: Seq<u64>, d: Seq<u64>, s: Seq<u64>)
    requires
        recurrence_of(c, s),
        recurrence_of(d, s),
        shortest(c, s),
        shortest(d, s),
        2 * (c.len() - 1) <= s.len(),
    ensures
        c == d,
{
    let e = padded_sum(c, d);
    assert(c.len() == d.len());
    let degree = c.len() - 1;
    if is_zero(e) {
        assert forall|i: int| 0 <= i < c.len() implies c[i] == d[i] by {
            assert(e[i] == 0);
            xor_cancel(c[i], d[i]);
        }
        assert(c =~= d);
    } else {
        xor_self(1);
        assert(e[0] == 0);
        let j = first_nonzero(e, 1);
        let t = e.skip(j);
        let inv = inverse(t[0]);
        let f = scaled(inv, t);
        assert(e =~= zeros(j as nat) + t);
        inverse_product(t[0]);
        product_comm(t[0], inv);
        assert(normalized(f));
        assert forall|m: int| f.len() - 1 <= m < s.len() - j implies #[trigger] discrepancy(
            f,
            s,
            m,
        ) == 0 by {
            discrepancy_scaled(inv, t, s, m);
            discrepancy_shift(j as nat, t, s, m + j);
            discrepancy_sum(c, d, s, m + j);
            assert(discrepancy(c, s, m + j) == 0);
            assert(discrepancy(d, s, m + j) == 0);
            xor_zero(0);
            product_zero(inv);
        }
        assert(f.len() < c.len());
        assert(!recurrence_of(f, s));
        let n = choose|n: int| f.len() - 1 <= n < s.len() && #[trigger] discrepancy(f, s, n) != 0;
        let at = earliest_failure(f, s, n);
        failure_forces_length(f, c, s, at);
    }
}

/// The sum of `f(v)` over the listed elements.
pub open spec fn total(vs: Seq<u64>, f: spec_fn(u64) -> u64) -> u64
    decreases vs.len(),
{
    if vs.len() == 0 {
        0
    } else {
        total(vs.drop_last(), f) ^ f(vs.last())
    }
}

/// The sum of the `k`-th powers of the listed elements.
pub open spec fn power_sum(vs: Seq<u64>, k: nat) -> u64 {
    total(vs, |v: u64| power(v, k))
}

/// Sums over functions that agree are the same.
pub proof fn total_ext(vs: Seq<u64>, f: spec_fn(u64) -> u64, g: spec_fn(u64) -> u64)
    requires
        forall|i: int| 0 <= i < vs.len() ==> f(#[trigger] vs[i]) == g(vs[i]),
    ensures
        total(vs, f) == total(vs, g),
    decreases vs.len(),
{
    if vs.len() > 0 {
        let init = vs.drop_last();
        assert forall|i: int| 0 <= i < init.len() implies f(#[trigger] init[i]) == g(init[i]) by {
            assert(init[i] == vs[i]);
        }
        total_ext(init, f, g);
        assert(vs[vs.len() - 1] == vs.last());
    }
}

proof fn total_add(
    vs: Seq<u64>,
    f: spec_fn(u64) -> u64,
    g: spec_fn(u64) -> u64,
    h: spec_fn(u64) -> u64,
)
    requires
        forall|v: u64| #[trigger] h(v) == f(v) ^ g(v),
    ensures
        total(vs, h) == total(vs, f) ^ total(vs, g),
    decreases vs.len(),
{
    if vs.len() == 0 {
        xor_zero(0);
    } else {
        let init = vs.drop_last();
        let v = vs.last();
        total_add(init, f, g, h);
        assert(h(v) == f(v) ^ g(v));
        xor_exchange(total(init, f), total(init, g), f(v), g(v));
    }
}

proof fn total_scale(vs: Seq<u64>, k: u64, f: spec_fn(u64) -> u64, g: spec_fn(u64) -> u64)
    requires
        forall|v: u64| #[trigger] g(v) == product(k, f(v)),
    ensures
        total(vs, g) == product(k, total(vs, f)),
    decreases vs.len(),
{
    if vs.len() == 0 {
        product_zero(k);
    } else {
        let init = vs.drop_last();
        let v = vs.last();
        total_scale(init, k, f, g);
        assert(g(v) == product(k, f(v)));
        product_add_right(k, total(init, f), f(v));
    }
}

proof fn total_zero(vs: Seq<u64>, f: spec_fn(u64) -> u64)
    requires
        forall|i: int| 0 <= i < vs.len() ==> f(#[trigger] vs[i]) == 0,
    ensures
        total(vs, f) == 0,
    decreases vs.len(),
{
    if vs.len() > 0 {
        let init = vs.drop_last();
        assert forall|i: int| 0 <= i < init.len() implies f(#[trigger] init[i]) == 0 by {
            assert(init[i] == vs[i]);
        }
        total_zero(init, f);
        assert(f(vs[vs.len() - 1]) == 0);
        xor_zero(0);
    }
}

proof fn total_single(vs: Seq<u64>, f: spec_fn(u64) -> u64, k: int)
    requires
        0 <= k < vs.len(),
        forall|i: int| 0 <= i < vs.len() && i != k ==> f(#[trigger] vs[i]) == 0,
    ensures
        total(vs, f) == f(vs[k]),
    decreases vs.len(),
{
    let init = vs.drop_last();
    assert forall|i: int| 0 <= i < init.len() && i != k implies f(#[trigger] init[i]) == 0 by {
        assert(init[i] == vs[i]);
    }
    xor_zero(f(vs[k]));
    if k == vs.len() - 1 {
        total_zero(init, f);
    } else {
        total_single(init, f, k);
        assert(f(vs[vs.len() - 1]) == 0);
    }
}

/// The square of a power sum is the power sum of twice the exponent.
pub proof fn power_sum_square(vs: Seq<u64>, k: nat)
    ensures
        square(power_sum(vs, k)) == power_sum(vs, 2 * k),
    decreases vs.len(),
{
    if vs.len() == 0 {
        product_zero(0);
    } else {
        let init = vs.drop_last();
        let v = vs.last();
        power_sum_square(init, k);
        square_add(power_sum(init, k), power(v, k));
        power_add(v, k, k);
        assert(k + k == 2 * k);
    }
}

/// The contribution of one element to a discrepancy of power sums.
spec fn contribution(c: Seq<u64>, v: u64, n: int) -> u64
    decreases c.len(),
{
    if c.len() == 0 {
        0
    } else {
        product(c[0], power(v, (n + 1) as nat)) ^ contribution(c.drop_first(), v, n - 1)
    }
}

proof fn contribution_value(c: Seq<u64>, v: u64, n: int)
    requires
        c.len() <= n + 1,
    ensures
        contribution(c, v, n) == product(
            power(v, (n + 2 - c.len()) as nat),
            eval(c.reverse(), v),
        ),
    decreases c.len(),
{
    if c.len() == 0 {
        product_zero(power(v, (n + 2) as nat));
    } else {
        let t = c.drop_first();
        contribution_value(t, v, n - 1);
        assert(c.reverse() =~= t.reverse().push(c[0]));
        eval_push(t.reverse(), c[0], v);
        let w = power(v, (n + 2 - c.len()) as nat);
        let e = eval(t.reverse(), v);
        let u = power(v, t.len());
        power_add(v, t.len(), (n + 2 - c.len()) as nat);
        product_assoc(c[0], u, w);
        product_comm(product(c[0], u), w);
        product_add_right(w, e, product(c[0], u));
        xor_comm(product(w, e), product(w, product(c[0], u)));
        assert(t.len() + (n + 2 - c.len()) == n + 1);
    }
}

/// The sequence of power sums of a set.
pub open spec fn is_power_sums(vs: Seq<u64>, s: Seq<u64>) -> bool {
    forall|k: int| 0 <= k < s.len() ==> #[trigger] s[k] == power_sum(vs, (k + 1) as nat)
}

proof fn discrepancy_total(c: Seq<u64>, vs: Seq<u64>, s: Seq<u64>, n: int)
    requires
        is_power_sums(vs, s),
        c.len() <= n + 1,
        n < s.len(),
    ensures
        discrepancy(c, s, n) == total(vs, |v: u64| contribution(c, v, n)),
    decreases c.len(),
{
    let f = |v: u64| contribution(c, v, n);
    if c.len() == 0 {
        total_zero(vs, f);
    } else {
        let t = c.drop_first();
        discrepancy_total(t, vs, s, n - 1);
        let g = |v: u64| power(v, (n + 1) as nat);
        let h = |v: u64| product(c[0], g(v));
        let e = |v: u64| contribution(t, v, n - 1);
        total_scale(vs, c[0], g, h);
        total_add(vs, h, e, f);
        assert(s[n] == power_sum(vs, (n + 1) as nat));
        assert(power_sum(vs, (n + 1) as nat) == total(vs, g));
    }
}

/// The set's locator is a recurrence for its power sums.
pub proof fn locator_generates(vs: Seq<u64>, s: Seq<u64>)
    requires
        is_power_sums(vs, s),
    ensures
        recurrence_of(from_roots(vs).reverse(), s),
        from_roots(vs).reverse().len() == vs.len() + 1,
{
    let p = from_roots(vs);
    let c = p.reverse();
    from_roots_facts(vs, 0);
    assert forall|j: int| c.len() - 1 <= j < s.len() implies #[trigger] discrepancy(c, s, j)
        == 0 by {
        discrepancy_total(c, vs, s, j);
        let f = |v: u64| contribution(c, v, j);
        assert forall|i: int| 0 <= i < vs.len() implies f(#[trigger] vs[i]) == 0 by {
            contribution_value(c, vs[i], j);
            assert(c.reverse() =~= p);
            from_roots_facts(vs, vs[i]);
            root_product_zero(vs, vs[i]);
            assert(vs.contains(vs[i]));
            product_zero(power(vs[i], (j + 2 - c.len()) as nat));
        }
        total_zero(vs, f);
    }
}

/// Weights whose first moments all vanish also annihilate short polynomials.
proof fn moments_annihilate(vs: Seq<u64>, w: spec_fn(u64) -> u64, m: nat, f: Seq<u64>)
    requires
        forall|t: nat| t < m ==> #[trigger] moment(vs, w, t) == 0,
        f.len() <= m,
    ensures
        total(vs, |v: u64| product(w(v), eval(f, v))) == 0,
    decreases f.len(),
{
    let h = |v: u64| product(w(v), eval(f, v));
    if f.len() == 0 {
        assert forall|i: int| 0 <= i < vs.len() implies h(#[trigger] vs[i]) == 0 by {
            product_zero(w(vs[i]));
        }
        total_zero(vs, h);
    } else {
        let init = f.drop_last();
        let c = f.last();
        let t = init.len();
        moments_annihilate(vs, w, m, init);
        let a = |v: u64| product(w(v), eval(init, v));
        let b = |v: u64| product(w(v), power(v, t));
        let d = |v: u64| product(c, b(v));
        total_scale(vs, c, b, d);
        assert(f =~= init.push(c));
        assert forall|v: u64| #[trigger] h(v) == a(v) ^ d(v) by {
            eval_push(init, c, v);
            product_add_right(w(v), eval(init, v), product(c, power(v, t)));
            product_assoc(w(v), c, power(v, t));
            product_comm(w(v), c);
            product_assoc(c, w(v), power(v, t));
        }
        total_add(vs, a, d, h);
        assert(moment(vs, w, t) == 0);
        product_zero(c);
        xor_zero(0);
    }
}

/// The sum of the weights times the `t`-th powers.
pub open spec fn moment(vs: Seq<u64>, w: spec_fn(u64) -> u64, t: nat) -> u64 {
    total(vs, |v: u64| product(w(v), power(v, t)))
}

/// Weights on distinct elements are determined by as many moments.
proof fn weights_vanish(vs: Seq<u64>, w: spec_fn(u64) -> u64, k: int)
    requires
        vs.no_duplicates(),
        0 <= k < vs.len(),
        forall|t: nat| t < vs.len() ==> #[trigger] moment(vs, w, t) == 0,
    ensures
        w(vs[k]) == 0,
{
    let others = vs.remove(k);
    let f = from_roots(others);
    from_roots_facts(others, 0);
    moments_annihilate(vs, w, vs.len(), f);
    let h = |v: u64| product(w(v), eval(f, v));
    assert forall|i: int| 0 <= i < vs.len() && i != k implies h(#[trigger] vs[i]) == 0 by {
        let j = if i < k {
            i
        } else {
            i - 1
        };
        assert(others[j] == vs[i]);
        from_roots_facts(others, vs[i]);
        root_product_zero(others, vs[i]);
        product_zero(w(vs[i]));
    }
    total_single(vs, h, k);
    from_roots_facts(others, vs[k]);
    root_product_zero(others, vs[k]);
    assert(!others.contains(vs[k])) by {
        assert forall|j: int| 0 <= j < others.len() implies others[j] != vs[k] by {
            let i = if j < k {
                j
            } else {
                j + 1
            };
            assert(others[j] == vs[i]);
        }
    }
    no_zero_divisors(w(vs[k]), eval(f, vs[k]));
}

/// A recurrence for enough power sums of a set, no longer than the set is
/// large, is the set's locator.
pub proof fn recurrence_is_locator(c: Seq<u64>, vs: Seq<u64>, s: Seq<u64>)
    requires
        vs.no_duplicates(),
        !vs.contains(0),
        is_power_sums(vs, s),
        recurrence_of(c, s),
        c.len() <= vs.len() + 1,
        2 * vs.len() <= s.len(),
    ensures
        splits(c.reverse(), vs),
        c[c.len() - 1] != 0,
{
    let p = c.reverse();
    let w = |v: u64| product(v, eval(p, v));
    assert forall|t: nat| t < vs.len() implies #[trigger] moment(vs, w, t) == 0 by {
        let n = (t + c.len() - 1) as int;
        assert(discrepancy(c, s, n) == 0);
        discrepancy_total(c, vs, s, n);
        let f = |v: u64| contribution(c, v, n);
        let g = |v: u64| product(w(v), power(v, t));
        assert forall|i: int| 0 <= i < vs.len() implies f(#[trigger] vs[i]) == g(vs[i]) by {
            let v = vs[i];
            contribution_value(c, v, n);
            assert(n + 2 - c.len() == t + 1);
            let e = eval(p, v);
            let u = power(v, t);
            product_assoc(u, v, e);
            product_comm(u, product(v, e));
        }
        total_ext(vs, f, g);
    }
    assert(vanishes(p, vs)) by {
        assert forall|i: int| 0 <= i < vs.len() implies eval(p, #[trigger] vs[i]) == 0 by {
            weights_vanish(vs, w, i);
            no_zero_divisors(vs[i], eval(p, vs[i]));
            assert(vs.contains(vs[i]));
        }
    }
    assert(p[p.len() - 1] == 1);
    if p.len() <= vs.len() {
        too_many_roots(p, vs);
    }
    if c[c.len() - 1] == 0 {
        let more = vs.push(0);
        assert(p[0] == 0);
        assert(eval(p, 0) == 0) by {
            product_zero(eval(p.drop_first(), 0));
            xor_zero(0);
        }
        assert(vanishes(p, more)) by {
            assert forall|i: int| 0 <= i < more.len() implies eval(p, #[trigger] more[i]) == 0 by {
                if i < vs.len() {
                    assert(more[i] == vs[i]);
                }
            }
        }
        too_many_roots(p, more);
    }
}

} // verus!
