//! Incrementally maintained reconciliation state.

use vstd::prelude::*;
use vstd::std_specs::bits::{axiom_u64_trailing_zeros, u64_trailing_zeros};
use super::algebraic::{
    insert_remove_cancels, toggle_cancels, toggled, with_element, without_element, AlgebraicError,
    ElementHash, RoomAccumulator,
};
use super::field::{power, power_add, product_one, square};
use super::pinsketch::sketch_of;
use super::recurrence::power_sum;

verus! {

/// Number of estimator strata.
pub const STRATA_COUNT: usize = 32;

/// Extraction capacity maintained in each estimator stratum.
pub const STRATUM_CAPACITY: usize = 8;

/// Per-population resident reconciliation state.
#[derive(Debug, Clone, PartialEq, Eq)]
pub struct ResidentKernel {
    pub accumulator: RoomAccumulator,
    pub strata: [[u64; STRATUM_CAPACITY]; STRATA_COUNT],
}

/// The stratum of a short identifier: its number of trailing zero bits, capped.
pub open spec fn stratum_of(value: u64) -> int {
    if u64_trailing_zeros(value) < 31 {
        u64_trailing_zeros(value) as int
    } else {
        31
    }
}

/// The strata as sequences of coordinates.
pub open spec fn strata_view(strata: [[u64; STRATUM_CAPACITY]; STRATA_COUNT]) -> Seq<Seq<u64>> {
    Seq::new(32, |i: int| strata@[i]@)
}

/// Strata with an element toggled in its own stratum.
pub open spec fn strata_toggled(strata: Seq<Seq<u64>>, value: u64) -> Seq<Seq<u64>> {
    strata.update(stratum_of(value), toggled(strata[stratum_of(value)], value))
}

/// The strata of a population, one element toggled after another.
pub open spec fn strata_of(population: Seq<u64>) -> Seq<Seq<u64>>
    decreases population.len(),
{
    if population.len() == 0 {
        Seq::new(32, |i: int| Seq::new(8, |j: int| 0u64))
    } else {
        strata_toggled(strata_of(population.drop_last()), population.last())
    }
}

/// The elements of a population in one stratum.
pub open spec fn in_stratum(population: Seq<u64>, stratum: int) -> Seq<u64> {
    population.filter(|value: u64| stratum_of(value) == stratum)
}

/// Adding an element to a population toggles it in the strata.
pub proof fn strata_of_push(population: Seq<u64>, value: u64)
    ensures
        strata_of(population.push(value)) == strata_toggled(strata_of(population), value),
{
    assert(population.push(value).drop_last() =~= population);
}

/// Each stratum of a population is the sketch of the elements in it.
pub proof fn strata_are_sketches(population: Seq<u64>, stratum: int)
    requires
        0 <= stratum < 32,
    ensures
        strata_of(population).len() == 32,
        strata_of(population)[stratum].len() == 8,
        sketch_of(in_stratum(population, stratum), strata_of(population)[stratum]),
    decreases population.len(),
{
    reveal(Seq::filter);
    let here = in_stratum(population, stratum);
    if population.len() > 0 {
        let init = population.drop_last();
        let last = population.last();
        axiom_u64_trailing_zeros(last);
        strata_are_sketches(init, stratum);
        let before = strata_of(init)[stratum];
        if stratum_of(last) == stratum {
            assert(here =~= in_stratum(init, stratum).push(last));
            assert(here.drop_last() =~= in_stratum(init, stratum));
            assert forall|i: int| 0 <= i < 8 implies #[trigger] strata_of(population)[stratum][i]
                == power_sum(here, (2 * i + 1) as nat) by {
                assert(before[i] == power_sum(in_stratum(init, stratum), (2 * i + 1) as nat));
            }
        } else {
            assert(here =~= in_stratum(init, stratum));
        }
    }
}

/// The elements of a stratum are those of the population with its number of
/// trailing zero bits, each as often.
pub proof fn in_stratum_facts(population: Seq<u64>, stratum: int)
    requires
        population.no_duplicates(),
    ensures
        in_stratum(population, stratum).no_duplicates(),
        forall|x: u64| #[trigger]
            in_stratum(population, stratum).contains(x) <==> population.contains(x) && stratum_of(x)
                == stratum,
    decreases population.len(),
{
    reveal(Seq::filter);
    let here = in_stratum(population, stratum);
    if population.len() > 0 {
        let init = population.drop_last();
        let last = population.last();
        let front = in_stratum(init, stratum);
        in_stratum_facts(init, stratum);
        assert(!init.contains(last));
        assert(population =~= init.push(last));
        assert forall|x: u64| #[trigger] here.contains(x) <==> population.contains(x)
            && stratum_of(x) == stratum by {
            assert(population.contains(x) <==> init.contains(x) || x == last) by {
                init.lemma_push_to_set_commute(last);
                assert(population.contains(x) <==> population.to_set().contains(x));
                assert(init.contains(x) <==> init.to_set().contains(x));
            }
            if stratum_of(last) == stratum {
                front.lemma_push_to_set_commute(last);
                assert(here.contains(x) <==> here.to_set().contains(x));
                assert(front.contains(x) <==> front.to_set().contains(x));
            } else {
                assert(here =~= front);
            }
        }
        assert(here.no_duplicates()) by {
            assert(!front.contains(last));
            if stratum_of(last) == stratum {
                assert(here =~= front.push(last));
            } else {
                assert(here =~= front);
            }
        }
    }
}

/// The sizes of the strata of a population from `r` on, added up.
pub open spec fn stratum_sizes(population: Seq<u64>, r: int) -> nat
    decreases 32 - r,
{
    if r >= 32 {
        0
    } else {
        stratum_sizes(population, r + 1) + in_stratum(population, r).len()
    }
}

/// Every element of a population is in one stratum.
pub proof fn strata_partition(population: Seq<u64>)
    ensures
        stratum_sizes(population, 0) == population.len(),
    decreases population.len(),
{
    if population.len() == 0 {
        no_sizes(population, 0);
    } else {
        axiom_u64_trailing_zeros(population.last());
        strata_partition(population.drop_last());
        one_more(population, 0);
    }
}

proof fn no_sizes(population: Seq<u64>, r: int)
    requires
        population.len() == 0,
        0 <= r <= 32,
    ensures
        stratum_sizes(population, r) == 0,
    decreases 32 - r,
{
    reveal(Seq::filter);
    if r < 32 {
        no_sizes(population, r + 1);
    }
}

proof fn one_more(population: Seq<u64>, r: int)
    requires
        population.len() > 0,
        0 <= r <= 32,
        0 <= stratum_of(population.last()) < 32,
    ensures
        stratum_sizes(population, r) == stratum_sizes(population.drop_last(), r) + if stratum_of(
            population.last(),
        ) >= r {
            1nat
        } else {
            0nat
        },
    decreases 32 - r,
{
    reveal(Seq::filter);
    if r < 32 {
        one_more(population, r + 1);
    }
}

impl Default for ResidentKernel {
    fn default() -> (result: Self)
        ensures
            result.accumulator == (RoomAccumulator { digest: 0, count: 0 }),
            strata_view(result.strata) == strata_of(Seq::empty()),
    {
        let kernel: ResidentKernel = ResidentKernel {
            accumulator: RoomAccumulator::new(),
            strata: [[0; STRATUM_CAPACITY]; STRATA_COUNT],
        };
        proof {
            assert(strata_view(kernel.strata) =~~= strata_of(Seq::empty()));
        }
        kernel
    }
}

impl ResidentKernel {
    /// Creates empty resident state.
    #[must_use]
    pub fn new() -> (result: Self)
        ensures
            result.accumulator == (RoomAccumulator { digest: 0, count: 0 }),
            strata_view(result.strata) == strata_of(Seq::empty()),
    {
        Self::default()
    }

    /// Returns the level-0 room accumulator.
    #[must_use]
    pub fn accumulator(&self) -> (result: RoomAccumulator)
        ensures
            result == self.accumulator,
    {
        self.accumulator
    }

    /// Returns the estimator's odd syndrome coordinates by stratum.
    #[must_use]
    pub fn strata(&self) -> (result: &[[u64; STRATUM_CAPACITY]; STRATA_COUNT])
        ensures
            *result == self.strata,
    {
        &self.strata
    }

    /// Adds an element to the reconciled population.
    ///
    /// # Errors
    /// Returns an error if the hash is zero, or if the accumulator rejects the
    /// update due to its own capacity and count limits.
    pub fn insert(&mut self, hash: ElementHash) -> (result: Result<(), AlgebraicError>)
        ensures
            match result {
                Ok(_) => {
                    &&& hash.h64 != 0
                    &&& old(self).accumulator.count < u64::MAX
                    &&& final(self).accumulator == with_element(old(self).accumulator, hash)
                    &&& strata_view(final(self).strata) == strata_toggled(
                        strata_view(old(self).strata),
                        hash.h64,
                    )
                },
                Err(error) => {
                    &&& *final(self) == *old(self)
                    &&& hash.h64 == 0 ==> error == AlgebraicError::ZeroShortIdentifier
                    &&& hash.h64 != 0 ==> error == AlgebraicError::CountOverflow && old(
                        self).accumulator.count == u64::MAX
                },
            },
    {
        if hash.h64 == 0 {
            return Err(AlgebraicError::ZeroShortIdentifier);
        }
        match self.accumulator.insert(hash) {
            Ok(_) => {},
            Err(error) => return Err(error),
        }
        toggle_stratum(&mut self.strata, hash.h64);
        Ok(())
    }

    /// Removes an element from the reconciled population.
    ///
    /// # Errors
    /// Returns an error if the hash is zero, or if the accumulator rejects the
    /// update because the population is already empty.
    pub fn remove(&mut self, hash: ElementHash) -> (result: Result<(), AlgebraicError>)
        ensures
            match result {
                Ok(_) => {
                    &&& hash.h64 != 0
                    &&& old(self).accumulator.count > 0
                    &&& final(self).accumulator == without_element(old(self).accumulator, hash)
                    &&& strata_view(final(self).strata) == strata_toggled(
                        strata_view(old(self).strata),
                        hash.h64,
                    )
                },
                Err(error) => {
                    &&& *final(self) == *old(self)
                    &&& hash.h64 == 0 ==> error == AlgebraicError::ZeroShortIdentifier
                    &&& hash.h64 != 0 ==> error == AlgebraicError::CountUnderflow && old(
                        self).accumulator.count == 0
                },
            },
    {
        if hash.h64 == 0 {
            return Err(AlgebraicError::ZeroShortIdentifier);
        }
        match self.accumulator.remove(hash) {
            Ok(_) => {},
            Err(error) => return Err(error),
        }
        toggle_stratum(&mut self.strata, hash.h64);
        Ok(())
    }
}

/// Toggles an element in its stratum.
fn toggle_stratum(strata: &mut [[u64; STRATUM_CAPACITY]; STRATA_COUNT], value: u64)
    ensures
        strata_view(*final(strata)) == strata_toggled(strata_view(*old(strata)), value),
{
    let zeros: u32 = value.trailing_zeros();
    let index: usize = if zeros < 31 {
        zeros as usize
    } else {
        31
    };
    let mut stratum: [u64; STRATUM_CAPACITY] = strata[index];
    let ghost before = stratum@;
    let squared: u64 = super::gf64::mul(value, value);
    let mut odd_power: u64 = value;
    let mut place: usize = 0;
    proof {
        reveal_with_fuel(power, 2);
        product_one(value);
    }
    while place < STRATUM_CAPACITY
        invariant
            place <= STRATUM_CAPACITY,
            squared == square(value),
            before.len() == 8,
            odd_power == power(value, (2 * place + 1) as nat),
            forall|i: int|
                0 <= i < 8 ==> #[trigger] stratum@[i] == if i < place {
                    before[i] ^ power(value, (2 * i + 1) as nat)
                } else {
                    before[i]
                },
        decreases STRATUM_CAPACITY - place,
    {
        stratum[place] = stratum[place] ^ odd_power;
        proof {
            power_add(value, (2 * place + 1) as nat, 2);
            reveal_with_fuel(power, 3);
            product_one(value);
        }
        odd_power = super::gf64::mul(odd_power, squared);
        place = place + 1;
    }
    strata[index] = stratum;
    proof {
        assert(stratum@ =~= toggled(before, value));
        assert(strata_view(*strata) =~= strata_toggled(strata_view(*old(strata)), value));
    }
}

/// Adding an element and removing it again restores every layer.
pub proof fn resident_insert_remove_cancels(
    accumulator: RoomAccumulator,
    strata: Seq<Seq<u64>>,
    hash: ElementHash,
)
    requires
        strata.len() == 32,
        accumulator.count < u64::MAX,
    ensures
        without_element(with_element(accumulator, hash), hash) == accumulator,
        strata_toggled(strata_toggled(strata, hash.h64), hash.h64) =~= strata,
{
    insert_remove_cancels(accumulator, hash);
    axiom_u64_trailing_zeros(hash.h64);
    toggle_cancels(strata[stratum_of(hash.h64)], hash.h64);
}

} // verus!
