use imagesorter::hashing::{compute_exact_hash, compute_partial_hash};

#[test]
fn test_exact_hash_known_value() {
    let data: Vec<u8> = b"abc".to_vec();
    assert_eq!(
        compute_exact_hash(&data),
        "ba7816bf8f01cfea414140de5dae2223b00361a396177a9cb410ff61f20015ad"
    );
}

#[test]
fn test_exact_hash_distinguishes_content() {
    let a = compute_exact_hash(&b"one".to_vec());
    let b = compute_exact_hash(&b"two".to_vec());
    assert_ne!(a, b);
    assert_eq!(a.len(), 64);
    assert_eq!(b.len(), 64);
}

#[test]
fn test_partial_hash_deterministic() {
    let prefix: Vec<u8> = vec![1, 2, 3, 4];
    let tail: Option<Vec<u8>> = Some(vec![9, 9]);
    let a = compute_partial_hash(&prefix, &tail, 12345);
    let b = compute_partial_hash(&prefix, &tail, 12345);
    assert_eq!(a, b);
    assert_eq!(a.len(), 64);
}

#[test]
fn test_partial_hash_depends_on_prefix_tail_and_length() {
    let base = compute_partial_hash(&vec![1, 2, 3], &None, 3);
    assert_ne!(base, compute_partial_hash(&vec![1, 2, 4], &None, 3));
    assert_ne!(base, compute_partial_hash(&vec![1, 2, 3], &Some(vec![5]), 3));
    assert_ne!(base, compute_partial_hash(&vec![1, 2, 3], &None, 4));
}
