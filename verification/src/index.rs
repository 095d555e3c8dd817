//! Similarity index: bounded-distance queries over fingerprints.
//!
//! The index stores fingerprints in insertion order and answers "every
//! indexed fingerprint within Hamming distance `threshold` of a query
//! value".  Duplicate fingerprint values may be inserted; a query
//! returns each stored occurrence.  A linear scan realizes the metric
//! index; callers depend only on the `insert`/`query` contract.

use vstd::prelude::*;
use crate::fingerprint::ComparableHash;
use crate::fingerprint::PerceptualMetric;
use crate::fingerprint::hamming_distance;
use crate::fingerprint::lemma_hamming_distance_self;

verus! {

/// The matches of a bounded-distance query: every entry within
/// `threshold` of `center`, in insertion order, paired with its
/// distance from `center`.
pub open spec fn query_matches(entries: Seq<u64>, center: u64, threshold: u32) -> Seq<(u32, u64)>
    decreases entries.len(),
{
    if entries.len() == 0 {
        Seq::empty()
    } else {
        let rest = query_matches(entries.drop_last(), center, threshold);
        if hamming_distance(center, entries.last()) <= threshold {
            rest.push((hamming_distance(center, entries.last()) as u32, entries.last()))
        } else {
            rest
        }
    }
}

/// Every reported match lies within the threshold, at its true
/// distance, and is a stored entry.
pub proof fn lemma_query_matches_sound(entries: Seq<u64>, center: u64, threshold: u32)
    ensures
        forall|i: int|
            0 <= i < query_matches(entries, center, threshold).len() ==> {
                let p = #[trigger] query_matches(entries, center, threshold)[i];
                &&& p.0 == hamming_distance(center, p.1)
                &&& p.0 <= threshold
                &&& entries.contains(p.1)
            },
    decreases entries.len(),
{
    if entries.len() > 0 {
        lemma_query_matches_sound(entries.drop_last(), center, threshold);
        let result = query_matches(entries, center, threshold);
        let rest = query_matches(entries.drop_last(), center, threshold);
        assert forall|i: int| 0 <= i < result.len() implies {
            let p = #[trigger] result[i];
            &&& p.0 == hamming_distance(center, p.1)
            &&& p.0 <= threshold
            &&& entries.contains(p.1)
        } by {
            if i < rest.len() {
                assert(result[i] == rest[i]);
                let p = rest[i];
                let j = choose|j: int|
                    0 <= j < entries.drop_last().len() && entries.drop_last()[j] == p.1;
                assert(entries[j] == p.1);
            } else {
                assert(result[i] == (hamming_distance(center, entries.last()) as u32,
                entries.last()));
                assert(entries[entries.len() - 1] == entries.last());
            }
        }
    }
}

/// Every stored entry within the threshold is reported.
pub proof fn lemma_query_matches_complete(entries: Seq<u64>, center: u64, threshold: u32, k: int)
    requires
        0 <= k < entries.len(),
        hamming_distance(center, entries[k]) <= threshold,
    ensures
        query_matches(entries, center, threshold).contains(
            (hamming_distance(center, entries[k]) as u32, entries[k]),
        ),
    decreases entries.len(),
{
    let result = query_matches(entries, center, threshold);
    if k == entries.len() - 1 {
        assert(result.last() == (hamming_distance(center, entries[k]) as u32, entries[k]));
    } else {
        lemma_query_matches_complete(entries.drop_last(), center, threshold, k);
        let rest = query_matches(entries.drop_last(), center, threshold);
        let p = (hamming_distance(center, entries.drop_last()[k]) as u32, entries.drop_last()[k]);
        let j = choose|j: int| 0 <= j < rest.len() && rest[j] == p;
        assert(result[j] == p);
    }
}

/// A query centered on a stored entry always reports that entry at
/// distance zero.
pub proof fn lemma_query_matches_reflexive(entries: Seq<u64>, center: u64, threshold: u32, k: int)
    requires
        0 <= k < entries.len(),
        entries[k] == center,
    ensures
        query_matches(entries, center, threshold).contains((0u32, center)),
{
    lemma_hamming_distance_self(center);
    lemma_query_matches_complete(entries, center, threshold, k);
}

/// A metric index over perceptual fingerprints.  Its view is the
/// sequence of inserted fingerprint bits, in insertion order.
pub struct SimilarityIndex {
    metric: PerceptualMetric,
    entries: Vec<u64>,
}

impl View for SimilarityIndex {
    type V = Seq<u64>;

    closed spec fn view(&self) -> Seq<u64> {
        self.entries@
    }
}

impl SimilarityIndex {
    /// Creates an empty index over the given metric.
    pub fn new(metric: PerceptualMetric) -> (r: SimilarityIndex)
        ensures
            r@ == Seq::<u64>::empty(),
    {
        SimilarityIndex { metric, entries: Vec::new() }
    }

    /// Adds one fingerprint.  Values are not deduplicated: a value
    /// inserted twice is stored, and reported by queries, twice.
    pub fn add(&mut self, hash: &ComparableHash)
        ensures
            final(self)@ == old(self)@.push(hash.0.bits),
    {
        self.entries.push(hash.0.bits);
    }

    /// Returns every indexed fingerprint within `threshold` Hamming
    /// distance of `center`, each paired with its distance.
    pub fn find(&self, center: &ComparableHash, threshold: u32) -> (r: Vec<(u32, u64)>)
        ensures
            r@ == query_matches(self@, center.0.bits, threshold),
    {
        let n = self.entries.len();
        let mut r: Vec<(u32, u64)> = Vec::new();
        let mut i: usize = 0;
        proof {
            assert(self@.subrange(0, 0) =~= Seq::<u64>::empty());
        }
        while i < n
            invariant
                n == self@.len(),
                i <= n,
                r@ == query_matches(self@.subrange(0, i as int), center.0.bits, threshold),
            decreases n - i,
        {
            let entry = ComparableHash(
                crate::fingerprint::PerceptualFingerprint { bits: self.entries[i] },
            );
            let dist = self.metric.distance(center, &entry);
            if dist <= threshold {
                r.push((dist, self.entries[i]));
            }
            proof {
                assert(self@.subrange(0, i + 1).drop_last() =~= self@.subrange(0, i as int));
                assert(self@.subrange(0, i + 1).last() == self@[i as int]);
            }
            i = i + 1;
        }
        proof {
            assert(self@.subrange(0, n as int) =~= self@);
        }
        r
    }
}

} // verus!
