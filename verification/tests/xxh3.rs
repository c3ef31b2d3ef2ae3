use rezzy::reconcile::xxh3::hash_bytes;

#[test]
fn xxh3_128_matches_reference_for_chunked_input() {
    let input = b"rezzy-xxh3";

    let direct = hash_bytes(input);

    let mut hasher = xxhash_rust::xxh3::Xxh3::new();
    hasher.update(&input[..4]);
    hasher.update(&input[4..]);
    let streaming = hasher.digest128();

    assert_eq!(direct, streaming);
}
