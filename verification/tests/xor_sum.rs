use rezzy::reconcile::xor_sum::XorSum;
use rezzy::reconcile::xxh3::hash_str;

#[test]
fn xor_accumulator_roundtrips() {
    let a = hash_str("alpha");
    let b = hash_str("beta");

    let mut acc = XorSum::new();
    acc.update(a);
    acc.update(b);
    acc.update(a);

    assert_eq!(acc.digest(), b);

    acc.replace(b, a);
    assert_eq!(acc.digest(), a);

    acc.remove_str("alpha");
    assert_eq!(acc.digest(), 0);
}

#[test]
fn inserting_text_adds_its_hash() {
    let mut acc = XorSum::new();
    acc.insert_str("alpha");
    assert_eq!(acc.digest(), hash_str("alpha"));
    acc.insert_str("alpha");
    assert_eq!(acc.digest(), 0);
}
