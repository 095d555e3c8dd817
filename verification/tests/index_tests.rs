use imagesorter::fingerprint::{ComparableHash, PerceptualMetric};
use imagesorter::index::SimilarityIndex;
use imagesorter::PerceptualFingerprint;

fn hash(bits: u64) -> ComparableHash {
    ComparableHash(PerceptualFingerprint { bits })
}

#[test]
fn test_query_returns_entries_within_threshold() {
    let mut index = SimilarityIndex::new(PerceptualMetric);
    index.add(&hash(0));
    index.add(&hash(0b111));
    index.add(&hash(u64::MAX));

    let found = index.find(&hash(0), 3);
    assert_eq!(found, vec![(0, 0), (3, 0b111)]);

    let found_tight = index.find(&hash(0), 2);
    assert_eq!(found_tight, vec![(0, 0)]);
}

#[test]
fn test_query_reflexive_match() {
    // A query around an indexed value always returns it at distance 0.
    let mut index = SimilarityIndex::new(PerceptualMetric);
    index.add(&hash(42));
    let found = index.find(&hash(42), 0);
    assert_eq!(found, vec![(0, 42)]);
}

#[test]
fn test_duplicate_values_are_kept() {
    let mut index = SimilarityIndex::new(PerceptualMetric);
    index.add(&hash(7));
    index.add(&hash(7));
    let found = index.find(&hash(7), 0);
    assert_eq!(found.len(), 2);
}
