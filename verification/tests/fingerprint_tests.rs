use imagesorter::fingerprint::{
    are_duplicates, compare_hashes, decode_fingerprint, encode_fingerprint, ComparableHash,
    PerceptualMetric,
};
use imagesorter::PerceptualFingerprint;

#[test]
fn test_compare_hashes_counts_differing_bits() {
    let a = PerceptualFingerprint { bits: 0 };
    let b = PerceptualFingerprint { bits: 0b1011 };
    assert_eq!(compare_hashes(&a, &b), 3);
    assert_eq!(compare_hashes(&a, &a), 0);
    let all = PerceptualFingerprint { bits: u64::MAX };
    assert_eq!(compare_hashes(&a, &all), 64);
}

#[test]
fn test_are_duplicates_boundary() {
    // Exactly at the threshold is included; one past it is excluded.
    let a = PerceptualFingerprint { bits: 0 };
    let b = PerceptualFingerprint { bits: 0b11111 };
    assert_eq!(compare_hashes(&a, &b), 5);
    assert!(are_duplicates(&a, &b, 5));
    assert!(!are_duplicates(&a, &b, 4));
    assert!(are_duplicates(&a, &b, 6));
}

#[test]
fn test_threshold_distance() {
    let metric = PerceptualMetric;
    let a = ComparableHash(PerceptualFingerprint { bits: 0b111 });
    let b = ComparableHash(PerceptualFingerprint { bits: 0 });
    assert_eq!(metric.distance(&a, &b), 3);
    assert_eq!(metric.threshold_distance(&a, &b, 3), Some(3));
    assert_eq!(metric.threshold_distance(&a, &b, 2), None);
    assert_eq!(metric.threshold_distance(&a, &a, 0), Some(0));
}

#[test]
fn test_encode_fingerprint_exact_value() {
    // Little-endian bytes of the value, in lowercase hex.
    let fp = PerceptualFingerprint { bits: 0x0123456789abcdef };
    assert_eq!(encode_fingerprint(&fp), "efcdab8967452301");
    let zero = PerceptualFingerprint { bits: 0 };
    assert_eq!(encode_fingerprint(&zero), "0000000000000000");
}

#[test]
fn test_encode_decode_round_trip() {
    for bits in [0u64, 1, 0xdead_beef_0badu64, u64::MAX, 0x8000_0000_0000_0001] {
        let fp = PerceptualFingerprint { bits };
        let encoded = encode_fingerprint(&fp);
        assert_eq!(encoded.len(), 16);
        assert_eq!(decode_fingerprint(&encoded), Some(fp));
    }
}

#[test]
fn test_decode_rejects_malformed_strings() {
    assert_eq!(decode_fingerprint(""), None);
    assert_eq!(decode_fingerprint("abc"), None);
    assert_eq!(decode_fingerprint("zzzzzzzzzzzzzzzz"), None);
    // Uppercase is not the portable form.
    assert_eq!(decode_fingerprint("EFCDAB8967452301"), None);
    // Too long.
    assert_eq!(decode_fingerprint("efcdab89674523010"), None);
}
