//! How a polynomial with distinct roots falls apart under a common divisor.

use vstd::prelude::*;
use vstd::multiset::Multiset;
use super::field::{no_zero_divisors, product};
use super::polynomial::{
    divides, eval, is_zero, monic, multiple, splits, too_many_roots, vanishes, zero_everywhere,
};

verus! {

/// The listed elements that are (or are not) roots of `f`, in order.
pub open spec fn select(roots: Seq<u64>, f: Seq<u64>, zero: bool) -> Seq<u64>
    decreases roots.len(),
{
    if roots.len() == 0 {
        roots
    } else {
        let init = select(roots.drop_last(), f, zero);
        if (eval(f, roots.last()) == 0) == zero {
            init.push(roots.last())
        } else {
            init
        }
    }
}

/// Selected elements are elements that the test admits.
pub proof fn select_facts(roots: Seq<u64>, f: Seq<u64>, zero: bool)
    ensures
        forall|i: int|
            0 <= i < select(roots, f, zero).len() ==> {
                &&& roots.contains(#[trigger] select(roots, f, zero)[i])
                &&& (eval(f, select(roots, f, zero)[i]) == 0) == zero
            },
        roots.no_duplicates() ==> select(roots, f, zero).no_duplicates(),
    decreases roots.len(),
{
    if roots.len() > 0 {
        let init = roots.drop_last();
        select_facts(init, f, zero);
        let s = select(init, f, zero);
        let r = roots.last();
        assert(roots[roots.len() - 1] == r);
        assert forall|i: int| 0 <= i < s.len() implies roots.contains(#[trigger] s[i]) by {
            let k = choose|k: int| 0 <= k < init.len() && init[k] == s[i];
            assert(roots[k] == s[i]);
        }
        if roots.no_duplicates() {
            assert(init.no_duplicates());
            assert forall|i: int| 0 <= i < s.len() implies #[trigger] s[i] != r by {
                assert(init.contains(s[i]));
                let k = choose|k: int| 0 <= k < init.len() && init[k] == s[i];
                assert(roots[k] == s[i] && k != roots.len() - 1);
            }
        }
    }
}

/// Every listed element is selected on its own side.
pub proof fn select_contains(roots: Seq<u64>, f: Seq<u64>, zero: bool, i: int)
    requires
        0 <= i < roots.len(),
        (eval(f, roots[i]) == 0) == zero,
    ensures
        select(roots, f, zero).contains(roots[i]),
    decreases roots.len(),
{
    let init = roots.drop_last();
    let s = select(init, f, zero);
    let whole = select(roots, f, zero);
    if i < roots.len() - 1 {
        select_contains(init, f, zero, i);
        let k = choose|k: int| 0 <= k < s.len() && s[k] == roots[i];
        assert(whole[k] == roots[i]);
    } else {
        assert(whole[s.len() as int] == roots[i]);
    }
}

/// The two selections together are as many as the whole.
pub proof fn select_partition(roots: Seq<u64>, f: Seq<u64>)
    ensures
        select(roots, f, true).len() + select(roots, f, false).len() == roots.len(),
        select(roots, f, true).to_multiset().add(select(roots, f, false).to_multiset())
            =~= roots.to_multiset(),
    decreases roots.len(),
{
    broadcast use vstd::seq_lib::group_to_multiset_ensures;

    if roots.len() == 0 {
        assert(select(roots, f, true).to_multiset() =~= Multiset::empty());
    } else {
        let init = roots.drop_last();
        select_partition(init, f);
        assert(roots =~= init.push(roots.last()));
    }
}

/// A monic common divisor of a split polynomial splits over the roots it has.
pub proof fn divisor_splits(p: Seq<u64>, roots: Seq<u64>, g: Seq<u64>)
    requires
        splits(p, roots),
        monic(g),
        divides(g, p),
        p.len() <= 0xffff_ffff_ffff_ffff,
    ensures
        splits(g, select(roots, g, true)),
        g.len() <= p.len(),
{
    let zero = select(roots, g, true);
    let other = select(roots, g, false);
    select_facts(roots, g, true);
    select_facts(roots, g, false);
    select_partition(roots, g);
    let h = choose|h: Seq<u64>| multiple(p, g, h);
    assert(vanishes(g, zero));
    if g.len() <= zero.len() {
        too_many_roots(g, zero);
    }
    assert(vanishes(h, other)) by {
        assert forall|i: int| 0 <= i < other.len() implies eval(h, #[trigger] other[i]) == 0 by {
            let r = other[i];
            assert(roots.contains(r));
            let k = choose|k: int| 0 <= k < roots.len() && roots[k] == r;
            assert(eval(p, roots[k]) == 0);
            assert(eval(p, r) == product(eval(h, r), eval(g, r)));
            no_zero_divisors(eval(h, r), eval(g, r));
        }
    }
    if is_zero(h) {
        assert forall|x: u64| #[trigger] eval(p, x) == 0 by {
            super::polynomial::eval_zero(h, x);
            no_zero_divisors(eval(h, x), eval(g, x));
        }
        zero_everywhere(p);
        assert(p[p.len() - 1] == 0);
    }
    if h.len() <= other.len() {
        too_many_roots(h, other);
    }
}

/// The cofactor splits over the remaining roots.
pub proof fn cofactor_splits(p: Seq<u64>, roots: Seq<u64>, g: Seq<u64>, q: Seq<u64>)
    requires
        splits(p, roots),
        splits(g, select(roots, g, true)),
        monic(q),
        q.len() + g.len() == p.len() + 1,
        forall|x: u64| #[trigger] eval(p, x) == product(eval(q, x), eval(g, x)),
    ensures
        splits(q, select(roots, g, false)),
{
    let other = select(roots, g, false);
    select_facts(roots, g, false);
    select_partition(roots, g);
    assert forall|i: int| 0 <= i < other.len() implies eval(q, #[trigger] other[i]) == 0 by {
        let r = other[i];
        assert(roots.contains(r));
        let k = choose|k: int| 0 <= k < roots.len() && roots[k] == r;
        assert(eval(p, roots[k]) == 0);
        assert(eval(p, r) == product(eval(q, r), eval(g, r)));
        no_zero_divisors(eval(q, r), eval(g, r));
    }
}

} // verus!
