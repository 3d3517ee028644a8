use plenty_of_fluids::hash::compute_sha1_hash;

#[test]
fn computes_correct_hash() {
    assert_eq!(
        compute_sha1_hash(vec![8u8]),
        vec![141, 136, 63, 21, 119, 202, 140, 51, 75, 124, 109, 117, 204, 183, 18, 9, 215, 28, 237, 19]
    );
}

#[test]
fn computes_20_byte_char() {
    assert_eq!(compute_sha1_hash(vec![8u8]).len(), 20)
}

#[test]
fn hash_of_empty_input_has_20_bytes() {
    let digest = compute_sha1_hash(Vec::new());
    assert_eq!(digest.len(), 20);
    assert_eq!(
        digest,
        vec![218, 57, 163, 238, 94, 107, 75, 13, 50, 85, 191, 239, 149, 96, 24, 144, 175, 216, 7, 9]
    );
}

#[test]
fn hash_of_long_input_has_20_bytes() {
    assert_eq!(compute_sha1_hash(vec![7u8; 100_000]).len(), 20);
}
