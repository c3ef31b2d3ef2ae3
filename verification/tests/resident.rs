use rezzy::reconcile::gf64::mul;
use rezzy::reconcile::triage::{estimate_strata, StrataEstimate};
use rezzy::reconcile::{AlgebraicError, ElementHash, ResidentKernel, STRATA_COUNT};

fn hash(h128: u128, h64: u64) -> ElementHash {
    ElementHash { h128, h64 }
}

#[test]
fn updates_all_resident_layers_and_reverses_cleanly() {
    let event = hash(0xfeed, 0x100);
    let mut resident = ResidentKernel::new();

    resident.insert(event).unwrap();
    assert_eq!(resident.accumulator().digest(), event.h128);
    assert_eq!(resident.accumulator().known_event_count(), 1);
    assert_eq!(resident.strata()[8][0], event.h64);

    resident.remove(event).unwrap();
    assert_eq!(resident, ResidentKernel::new());
}

#[test]
fn strata_store_odd_powers_and_cap_large_trailing_zero_counts() {
    let mut resident = ResidentKernel::new();
    let event = hash(1, 1_u64 << 40);
    resident.insert(event).unwrap();

    let stratum = &resident.strata()[STRATA_COUNT - 1];
    let squared = mul(event.h64, event.h64);
    let mut expected = event.h64;
    for syndrome in stratum {
        assert_eq!(*syndrome, expected);
        expected = mul(expected, squared);
    }
}

#[test]
fn rejects_zero_short_identifier_on_insert() {
    let mut resident = ResidentKernel::new();

    assert_eq!(
        resident.insert(hash(1, 0)),
        Err(AlgebraicError::ZeroShortIdentifier)
    );
    assert_eq!(resident, ResidentKernel::new());
}

#[test]
fn rejects_zero_short_identifier_on_remove() {
    let mut resident = ResidentKernel::new();

    assert_eq!(
        resident.remove(hash(1, 0)),
        Err(AlgebraicError::ZeroShortIdentifier)
    );
    assert_eq!(resident, ResidentKernel::new());
}

#[test]
fn estimate_is_the_number_of_elements_in_one_population_alone() {
    let mut local = ResidentKernel::new();
    let mut remote = ResidentKernel::new();
    for value in 1_u64..=200 {
        local.insert(hash(u128::from(value), value)).unwrap();
        remote.insert(hash(u128::from(value), value)).unwrap();
    }
    assert_eq!(
        estimate_strata(local.strata(), remote.strata()),
        Ok(StrataEstimate {
            delta: 0,
            low_confidence: false
        })
    );

    for value in [1001_u64, 1002, 1004, 1008, 1 << 40] {
        local.insert(hash(u128::from(value), value)).unwrap();
    }
    for value in [2001_u64, 2003, 2004] {
        remote.insert(hash(u128::from(value), value)).unwrap();
    }
    remote.remove(hash(64, 64)).unwrap();
    assert_eq!(
        estimate_strata(local.strata(), remote.strata()),
        Ok(StrataEstimate {
            delta: 9,
            low_confidence: false
        })
    );
}
