//! A search for roots has one outcome: its parameters, factors and quotients are
//! determined by the polynomial.

use vstd::prelude::*;
use super::algebraic::AlgebraicError;
use super::field::{bit, bit_xor, product, square, square_fixed, xor_cancel, xor_self, xor_zero};
use super::pinsketch::{
    divisor_for, factor_parameter, futile, futile_trial, is_gcd, proper_factor, quadratic_constant,
    root_search, search_runs, split_after, stopped_after, trace_chain, trace_step, trial_cost,
    trial_gives, with_linear, FACTOR_TRIALS,
};
use super::polynomial::{
    divided, divides, divisor_not_longer, eval, monic, mutual_divisors, remainder_unique, squared,
    trimmed_unique,
};
use super::quadratic::{artin_schreier, artin_schreier_add};

verus! {

/// A trace step has one result.
proof fn trace_step_unique(modulus: Seq<u64>, c: u64, from: Seq<u64>, a: Seq<u64>, b: Seq<u64>)
    requires
        monic(modulus),
        modulus.len() <= 0xffff_ffff,
        from.len() <= 0xffff_ffff,
        trace_step(modulus, c, from, a),
        trace_step(modulus, c, from, b),
    ensures
        a == b,
{
    let p = with_linear(squared(from), c);
    let q = choose|q: Seq<u64>|
        #![trigger divided(p, modulus, q, a)]
        (q.len() == 0 || q.len() + modulus.len() == p.len() + 1) && divided(p, modulus, q, a);
    let r = choose|r: Seq<u64>|
        #![trigger divided(p, modulus, r, b)]
        (r.len() == 0 || r.len() + modulus.len() == p.len() + 1) && divided(p, modulus, r, b);
    remainder_unique(p, modulus, q, a, r, b);
}

/// Repeated trace steps have one result each.
proof fn trace_chain_unique(
    modulus: Seq<u64>,
    c: u64,
    a: Seq<Seq<u64>>,
    b: Seq<Seq<u64>>,
    n: int,
)
    requires
        monic(modulus),
        2 <= modulus.len() <= 0xffff_ffff,
        trace_chain(modulus, c, a),
        trace_chain(modulus, c, b),
        0 <= n < a.len(),
        n < b.len(),
    ensures
        a[n] == b[n],
        a[n].len() <= 0xffff_ffff,
    decreases n,
{
    if n > 0 {
        trace_chain_unique(modulus, c, a, b, n - 1);
        assert(trace_step(modulus, c, a[n - 1], a[n - 1 + 1]));
        assert(trace_step(modulus, c, b[n - 1], b[n - 1 + 1]));
        trace_step_unique(modulus, c, a[n - 1], a[n], b[n]);
    }
}

/// Two polynomials have one monic greatest common divisor.
pub proof fn gcd_unique(left: Seq<u64>, right: Seq<u64>, a: Seq<u64>, b: Seq<u64>)
    requires
        is_gcd(left, right, a),
        is_gcd(left, right, b),
        a.len() <= 0xffff_ffff_ffff_ffff,
        b.len() <= 0xffff_ffff_ffff_ffff,
    ensures
        a == b,
{
    assert(divides(a, left) && divides(a, right));
    assert(divides(b, left) && divides(b, right));
    assert(divides(a, b));
    assert(divides(b, a));
    mutual_divisors(a, b);
}

/// A polynomial that can be tried within the limits of the machine is short.
proof fn affordable_is_short(degree: nat)
    requires
        trial_cost(degree) <= usize::MAX,
    ensures
        degree < 0x7fff_ffff,
{
    if degree >= 0x7fff_ffff {
        assert(63 * (degree * degree) > 0xffff_ffff_ffff_ffff) by (nonlinear_arith)
            requires
                degree >= 0x7fff_ffff,
        ;
    }
}

/// A factoring trial gives one divisor.
pub proof fn trial_unique(poly: Seq<u64>, trial: nat, a: Seq<u64>, b: Seq<u64>)
    requires
        monic(poly),
        2 <= poly.len() <= 0xffff_ffff,
        trial_gives(poly, trial, a),
        trial_gives(poly, trial, b),
    ensures
        a == b,
        monic(a),
        a.len() <= poly.len(),
{
    reveal(divisor_for);
    let parameter = factor_parameter(trial);
    let x = choose|chain: Seq<Seq<u64>>| #[trigger]
        trace_chain(poly, parameter, chain) && chain.len() == 64 && is_gcd(poly, chain[63], a);
    let y = choose|chain: Seq<Seq<u64>>| #[trigger]
        trace_chain(poly, parameter, chain) && chain.len() == 64 && is_gcd(poly, chain[63], b);
    trace_chain_unique(poly, parameter, x, y, 63);
    divisor_not_longer(a, poly);
    divisor_not_longer(b, poly);
    gcd_unique(poly, x[63], a, b);
}

/// A trial that gives a proper factor is not futile.
proof fn proper_not_futile(poly: Seq<u64>, trial: nat, g: Seq<u64>)
    requires
        monic(poly),
        2 <= poly.len() <= 0xffff_ffff,
        trial_gives(poly, trial, g),
        proper_factor(poly, g),
    ensures
        !futile_trial(poly, trial),
{
    reveal(futile_trial);
    if futile_trial(poly, trial) {
        let h = choose|h: Seq<u64>| #[trigger]
            trial_gives(poly, trial, h) && !proper_factor(poly, h);
        trial_unique(poly, trial, g, h);
    }
}

/// A polynomial is split by one trial, into one pair of factors.
proof fn split_unique(
    poly: Seq<u64>,
    m: nat,
    a: Seq<u64>,
    x: Seq<u64>,
    n: nat,
    b: Seq<u64>,
    y: Seq<u64>,
)
    requires
        monic(poly),
        4 <= poly.len() <= 0xffff_ffff,
        split_after(poly, m, a, x),
        split_after(poly, n, b, y),
    ensures
        m == n,
        a == b,
        x == y,
        monic(a),
        monic(x),
{
    reveal(split_after);
    reveal(futile);
    proper_not_futile(poly, m, a);
    proper_not_futile(poly, n, b);
    if m < n {
        assert(futile_trial(poly, m));
    }
    if n < m {
        assert(futile_trial(poly, n));
    }
    trial_unique(poly, m, a, b);
    let none = Seq::<u64>::empty();
    assert forall|v: u64| #[trigger] eval(poly, v) == product(eval(x, v), eval(a, v)) ^ eval(
        none,
        v,
    ) by {
        xor_zero(product(eval(x, v), eval(a, v)));
    }
    assert forall|v: u64| #[trigger] eval(poly, v) == product(eval(y, v), eval(a, v)) ^ eval(
        none,
        v,
    ) by {
        xor_zero(product(eval(y, v), eval(a, v)));
    }
    assert(divided(poly, a, x, none));
    assert(divided(poly, a, y, none));
    remainder_unique(poly, a, x, none, y, none);
    trimmed_unique(x, y);
}

/// A quadratic in normal form has one solution without a constant bit.
proof fn solution_unique(a: u64, b: u64)
    requires
        artin_schreier(a) == artin_schreier(b),
        !bit(a, 0),
        !bit(b, 0),
    ensures
        a == b,
{
    let w = a ^ b;
    artin_schreier_add(a, b);
    xor_self(artin_schreier(a));
    xor_cancel(square(w), w);
    square_fixed(w);
    bit_xor(a, b, 0);
    assert(bit(1, 0)) by {
        assert((1u64 >> 0u64) & 1 == 1) by (bit_vector);
    }
    xor_cancel(a, b);
}

/// A stop for want of work rules out a split, and a failure of every trial.
proof fn stop_excludes(poly: Seq<u64>, n: nat, work: nat)
    requires
        monic(poly),
        4 <= poly.len() <= 0xffff_ffff,
        stopped_after(poly, n, work),
    ensures
        FACTOR_TRIALS * trial_cost((poly.len() - 1) as nat) > work,
        forall|m: nat, a: Seq<u64>, x: Seq<u64>| #[trigger]
            split_after(poly, m, a, x) ==> m * trial_cost((poly.len() - 1) as nat) + trial_cost(
                (poly.len() - 1) as nat,
            ) > work,
{
    reveal(stopped_after);
    reveal(futile);
    let cost = trial_cost((poly.len() - 1) as nat);
    assert(n * cost + cost <= FACTOR_TRIALS * cost) by (nonlinear_arith)
        requires
            n + 1 <= FACTOR_TRIALS,
    ;
    assert forall|m: nat, a: Seq<u64>, x: Seq<u64>| #[trigger]
        split_after(poly, m, a, x) implies m * cost + cost > work by {
        reveal(split_after);
        proper_not_futile(poly, m, a);
        if m < n {
            assert(futile_trial(poly, m));
        }
        assert(m * cost + cost >= n * cost + cost) by (nonlinear_arith)
            requires
                m >= n,
        ;
    }
}

/// Where every trial is futile there is no split.
proof fn futile_excludes(poly: Seq<u64>)
    requires
        monic(poly),
        4 <= poly.len() <= 0xffff_ffff,
        futile(poly, FACTOR_TRIALS as nat),
    ensures
        forall|m: nat, a: Seq<u64>, x: Seq<u64>| !#[trigger] split_after(poly, m, a, x),
{
    reveal(futile);
    assert forall|m: nat, a: Seq<u64>, x: Seq<u64>| !#[trigger] split_after(poly, m, a, x) by {
        reveal(split_after);
        if split_after(poly, m, a, x) {
            proper_not_futile(poly, m, a);
            assert(futile_trial(poly, m));
        }
    }
}

/// A search for the roots of pending polynomials has one outcome.
proof fn search_unique(
    pending: Seq<Seq<u64>>,
    found: Seq<u64>,
    work: nat,
    a: Result<(Seq<u64>, nat), AlgebraicError>,
    a_steps: nat,
    b: Result<(Seq<u64>, nat), AlgebraicError>,
    b_steps: nat,
)
    requires
        forall|i: int| 0 <= i < pending.len() ==> monic(#[trigger] pending[i]),
        search_runs(pending, found, work, a, a_steps),
        search_runs(pending, found, work, b, b_steps),
    ensures
        a == b,
    decreases a_steps, 1int,
{
    reveal(search_runs);
    if pending.len() > 0 {
        let poly = pending.last();
        let rest = pending.drop_last();
        let (a_less, b_less) = ((a_steps - 1) as nat, (b_steps - 1) as nat);
        assert(monic(pending[pending.len() - 1]));
        assert forall|i: int| 0 <= i < rest.len() implies monic(#[trigger] rest[i]) by {
            assert(rest[i] == pending[i]);
        }
        if poly.len() <= 1 {
            search_unique(rest, found, work, a, a_less, b, b_less);
        } else if poly.len() == 2 {
            search_unique(rest, found.push(poly[0]), work, a, a_less, b, b_less);
        } else if poly.len() == 3 {
            quadratic_unique(pending, found, work, a, a_steps, b, b_steps);
        } else if trial_cost((poly.len() - 1) as nat) <= usize::MAX {
            affordable_is_short((poly.len() - 1) as nat);
            factoring_unique(pending, found, work, a, a_steps, b, b_steps);
        }
    }
}

proof fn quadratic_unique(
    pending: Seq<Seq<u64>>,
    found: Seq<u64>,
    work: nat,
    a: Result<(Seq<u64>, nat), AlgebraicError>,
    a_steps: nat,
    b: Result<(Seq<u64>, nat), AlgebraicError>,
    b_steps: nat,
)
    requires
        forall|i: int| 0 <= i < pending.len() ==> monic(#[trigger] pending[i]),
        search_runs(pending, found, work, a, a_steps),
        search_runs(pending, found, work, b, b_steps),
        pending.len() > 0,
        pending.last().len() == 3,
    ensures
        a == b,
    decreases a_steps, 0int,
{
    reveal(search_runs);
    let poly = pending.last();
    let rest = pending.drop_last();
    let constant = quadratic_constant(poly);
    if poly[1] != 0 && exists|z: u64| #[trigger] artin_schreier(z) == constant {
        let x = choose|z: u64| #[trigger]
            artin_schreier(z) == constant && !bit(z, 0) && poly[1] != 0 && search_runs(
                rest,
                found.push(product(z, poly[1])).push(product(z, poly[1]) ^ poly[1]),
                work,
                a,
                (a_steps - 1) as nat,
            );
        let y = choose|z: u64| #[trigger]
            artin_schreier(z) == constant && !bit(z, 0) && poly[1] != 0 && search_runs(
                rest,
                found.push(product(z, poly[1])).push(product(z, poly[1]) ^ poly[1]),
                work,
                b,
                (b_steps - 1) as nat,
            );
        solution_unique(x, y);
        assert forall|i: int| 0 <= i < rest.len() implies monic(#[trigger] rest[i]) by {
            assert(rest[i] == pending[i]);
        }
        search_unique(
            rest,
            found.push(product(x, poly[1])).push(product(x, poly[1]) ^ poly[1]),
            work,
            a,
            (a_steps - 1) as nat,
            b,
            (b_steps - 1) as nat,
        );
    }
}

proof fn factoring_unique(
    pending: Seq<Seq<u64>>,
    found: Seq<u64>,
    work: nat,
    a: Result<(Seq<u64>, nat), AlgebraicError>,
    a_steps: nat,
    b: Result<(Seq<u64>, nat), AlgebraicError>,
    b_steps: nat,
)
    requires
        forall|i: int| 0 <= i < pending.len() ==> monic(#[trigger] pending[i]),
        search_runs(pending, found, work, a, a_steps),
        search_runs(pending, found, work, b, b_steps),
        pending.len() > 0,
        4 <= pending.last().len() <= 0xffff_ffff,
        trial_cost((pending.last().len() - 1) as nat) <= usize::MAX,
    ensures
        a == b,
    decreases a_steps, 0int,
{
    reveal(search_runs);
    let poly = pending.last();
    let rest = pending.drop_last();
    let cost = trial_cost((poly.len() - 1) as nat);
    assert(monic(pending[pending.len() - 1]));
    if exists|n: nat| #[trigger] stopped_after(poly, n, work) {
        let n = choose|n: nat| #[trigger] stopped_after(poly, n, work);
        stop_excludes(poly, n, work);
    } else if futile(poly, FACTOR_TRIALS as nat) {
        futile_excludes(poly);
    } else {
        let (m, f, q) = choose|n: nat, factor: Seq<u64>, quotient: Seq<u64>| #[trigger]
            split_after(poly, n, factor, quotient) && n * cost + cost <= work && search_runs(
                rest.push(quotient).push(factor),
                found,
                (work - n * cost - cost) as nat,
                a,
                (a_steps - 1) as nat,
            );
        let (n, g, r) = choose|n: nat, factor: Seq<u64>, quotient: Seq<u64>| #[trigger]
            split_after(poly, n, factor, quotient) && n * cost + cost <= work && search_runs(
                rest.push(quotient).push(factor),
                found,
                (work - n * cost - cost) as nat,
                b,
                (b_steps - 1) as nat,
            );
        split_unique(poly, m, f, q, n, g, r);
        let next = rest.push(q).push(f);
        assert forall|i: int| 0 <= i < next.len() implies monic(#[trigger] next[i]) by {
            if i < rest.len() {
                assert(next[i] == pending[i]);
            }
        }
        search_unique(
            next,
            found,
            (work - m * cost - cost) as nat,
            a,
            (a_steps - 1) as nat,
            b,
            (b_steps - 1) as nat,
        );
    }
}

/// Searching a monic polynomial for its roots with some work has one outcome.
pub proof fn root_search_unique(
    poly: Seq<u64>,
    work: nat,
    a: Result<(Seq<u64>, nat), AlgebraicError>,
    b: Result<(Seq<u64>, nat), AlgebraicError>,
)
    requires
        monic(poly),
        root_search(poly, work, a),
        root_search(poly, work, b),
    ensures
        a == b,
{
    let none = Seq::<u64>::empty();
    let a_steps = choose|steps: nat| #[trigger] search_runs(seq![poly], none, work, a, steps);
    let b_steps = choose|steps: nat| #[trigger] search_runs(seq![poly], none, work, b, steps);
    search_unique(seq![poly], none, work, a, a_steps, b, b_steps);
}

} // verus!
