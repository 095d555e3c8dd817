//! Perceptual fingerprints and their Hamming-distance metric.
//!
//! A fingerprint is a 64-bit vector summarizing the coarse visual
//! structure of an image.  Two fingerprints are compared by the number
//! of bit positions in which they differ; images are near-duplicates
//! when that distance is at most a caller-chosen threshold.

use vstd::prelude::*;
use vstd::bytes::spec_u64_from_le_bytes;
use vstd::bytes::spec_u64_to_le_bytes;
use vstd::bytes::lemma_auto_spec_u64_to_from_le_bytes;
use vstd::bytes::u64_from_le_bytes;
use vstd::bytes::u64_to_le_bytes;
use vstd::string::StrSliceExecFns;
use crate::hashing::hex_encode;
use crate::hashing::hex_of;
use crate::hashing::hex_to_bytes;
use crate::hashing::nibble_of_hex_char;
use crate::hashing::lemma_hex_round_trip;
use crate::hashing::lemma_hex_to_bytes_len;

verus! {

/// The hashing algorithms available for duplicate detection.
#[derive(Debug, Clone, Copy, PartialEq, Eq, Structural)]
pub enum HashType {
    /// Exact content hash over the whole file.
    Exact,
    /// Perceptual hash based on a double-gradient transform.
    Perceptual,
    /// Difference hash based on a gradient transform; the engine's default.
    Difference,
    /// Average hash based on the mean cell brightness.
    Average,
}

/// The outcome of a hashing operation: the encoded hash and the name of
/// the algorithm that produced it.
#[derive(Debug, Clone)]
pub struct HashResult {
    pub hash: String,
    pub hash_type: String,
}

/// A 64-bit perceptual fingerprint of an image.
#[derive(Debug, Clone, Copy, PartialEq, Eq, Structural)]
pub struct PerceptualFingerprint {
    pub bits: u64,
}

/// True when bit `i` of `x` is set.
pub open spec fn bit_set(x: u64, i: u64) -> bool {
    (x >> i) & 1u64 == 1u64
}

/// The number of set bits of `x` among the bit positions below `n`.
pub open spec fn count_bits(x: u64, n: int) -> nat
    decreases n,
{
    if n <= 0 {
        0
    } else {
        count_bits(x, n - 1) + if bit_set(x, (n - 1) as u64) {
            1nat
        } else {
            0nat
        }
    }
}

/// The number of set bits of `x`.
pub open spec fn popcount(x: u64) -> nat {
    count_bits(x, 64)
}

/// The Hamming distance between two 64-bit fingerprints: the number of
/// bit positions in which they differ.
pub open spec fn hamming_distance(a: u64, b: u64) -> nat {
    popcount(a ^ b)
}

proof fn lemma_count_bits_bound(x: u64, n: int)
    ensures
        count_bits(x, n) <= if n <= 0 { 0int } else { n },
    decreases n,
{
    if n > 0 {
        lemma_count_bits_bound(x, n - 1);
    }
}

proof fn lemma_count_bits_zero(n: int)
    ensures
        count_bits(0u64, n) == 0,
    decreases n,
{
    if n > 0 {
        lemma_count_bits_zero(n - 1);
        let i = (n - 1) as u64;
        assert((0u64 >> i) & 1u64 != 1u64) by (bit_vector);
    }
}

/// A fingerprint is at distance zero from itself.
pub proof fn lemma_hamming_distance_self(a: u64)
    ensures
        hamming_distance(a, a) == 0,
{
    assert(a ^ a == 0u64) by (bit_vector);
    lemma_count_bits_zero(64);
}

/// The Hamming distance does not depend on the order of its arguments.
pub proof fn lemma_hamming_distance_symmetric(a: u64, b: u64)
    ensures
        hamming_distance(a, b) == hamming_distance(b, a),
{
    assert(a ^ b == b ^ a) by (bit_vector);
}

/// Compares two fingerprints and returns their Hamming distance.
pub fn compare_hashes(hash1: &PerceptualFingerprint, hash2: &PerceptualFingerprint) -> (d: u32)
    ensures
        d == hamming_distance(hash1.bits, hash2.bits),
        d <= 64,
{
    let x: u64 = hash1.bits ^ hash2.bits;
    let mut d: u32 = 0;
    let mut i: u64 = 0;
    while i < 64
        invariant
            i <= 64,
            d == count_bits(x, i as int),
            d <= i,
        decreases 64 - i,
    {
        if (x >> i) & 1u64 == 1u64 {
            d = d + 1;
        }
        i = i + 1;
    }
    proof {
        lemma_count_bits_bound(x, 64);
    }
    d
}

/// Decides whether two fingerprints are duplicates: their Hamming
/// distance is at most `threshold`.  A threshold of zero accepts only
/// fingerprints with identical bits.
pub fn are_duplicates(
    hash1: &PerceptualFingerprint,
    hash2: &PerceptualFingerprint,
    threshold: u32,
) -> (r: bool)
    ensures
        r == (hamming_distance(hash1.bits, hash2.bits) <= threshold),
{
    compare_hashes(hash1, hash2) <= threshold
}

/// The portable encoding of a fingerprint: the lowercase hex encoding
/// of its bits in little-endian byte order, sixteen characters.
pub open spec fn spec_encode_fingerprint(fp: PerceptualFingerprint) -> Seq<char> {
    hex_of(spec_u64_to_le_bytes(fp.bits))
}

/// The fingerprint encoded by a string, or `None` when the string is
/// not a sixteen-character lowercase hex encoding.
pub open spec fn spec_decode_fingerprint(s: Seq<char>) -> Option<PerceptualFingerprint> {
    match hex_to_bytes(s) {
        Some(bytes) => if bytes.len() == 8 {
            Some(PerceptualFingerprint { bits: spec_u64_from_le_bytes(bytes) })
        } else {
            None
        },
        None => None,
    }
}

/// Encodes a fingerprint as a portable string for the cache.
pub fn encode_fingerprint(fp: &PerceptualFingerprint) -> (r: String)
    ensures
        r@ == spec_encode_fingerprint(*fp),
{
    let bytes = u64_to_le_bytes(fp.bits);
    hex_encode(&bytes)
}

fn nibble_of_char(c: char) -> (r: Option<u8>)
    ensures
        r == nibble_of_hex_char(c),
        r matches Some(v) ==> v < 16,
{
    match c {
        '0' => Some(0),
        '1' => Some(1),
        '2' => Some(2),
        '3' => Some(3),
        '4' => Some(4),
        '5' => Some(5),
        '6' => Some(6),
        '7' => Some(7),
        '8' => Some(8),
        '9' => Some(9),
        'a' => Some(10),
        'b' => Some(11),
        'c' => Some(12),
        'd' => Some(13),
        'e' => Some(14),
        'f' => Some(15),
        _ => None,
    }
}

/// Decodes a fingerprint from its portable string form.  Returns
/// `None` for anything that is not a sixteen-character lowercase hex
/// string, so a foreign or corrupt cache entry reads as absent rather
/// than as a wrong fingerprint.
pub fn decode_fingerprint(s: &str) -> (r: Option<PerceptualFingerprint>)
    ensures
        r == spec_decode_fingerprint(s@),
{
    let n = s.unicode_len();
    if n != 16 {
        proof {
            lemma_hex_to_bytes_len(s@);
        }
        return None;
    }
    let mut bytes: Vec<u8> = Vec::new();
    let mut i: usize = 0;
    proof {
        assert(s@.skip(0) =~= s@);
        match hex_to_bytes(s@) {
            Some(rest) => {
                assert(Seq::<u8>::empty() + rest =~= rest);
            },
            None => {},
        }
    }
    while i < 8
        invariant
            i <= 8,
            s@.len() == 16,
            bytes@.len() == i,
            match hex_to_bytes(s@.skip(2 * i)) {
                Some(rest) => hex_to_bytes(s@) == Some(bytes@ + rest),
                None => hex_to_bytes(s@) is None,
            },
        decreases 8 - i,
    {
        let c_high = s.get_char(2 * i);
        let c_low = s.get_char(2 * i + 1);
        proof {
            assert(s@.skip(2 * i as int)[0] == s@[2 * i as int]);
            assert(s@.skip(2 * i as int)[1] == s@[2 * i + 1]);
            assert(s@.skip(2 * i as int).skip(2) =~= s@.skip(2 * i + 2));
        }
        let high = match nibble_of_char(c_high) {
            Some(v) => v,
            None => {
                return None;
            },
        };
        let low = match nibble_of_char(c_low) {
            Some(v) => v,
            None => {
                return None;
            },
        };
        let byte: u8 = high * 16 + low;
        bytes.push(byte);
        proof {
            assert(match hex_to_bytes(s@.skip(2 * i + 2)) {
                Some(rest) => hex_to_bytes(s@.skip(2 * i as int)) == Some(seq![byte] + rest),
                None => hex_to_bytes(s@.skip(2 * i as int)) is None,
            });
            match hex_to_bytes(s@.skip(2 * i + 2)) {
                Some(rest) => {
                    assert(bytes@ + rest =~= bytes@.drop_last() + (seq![byte] + rest));
                },
                None => {},
            }
        }
        i = i + 1;
    }
    proof {
        assert(s@.skip(16).len() == 0);
        assert(hex_to_bytes(s@.skip(16)) == Some(Seq::<u8>::empty()));
        assert(bytes@ + Seq::<u8>::empty() =~= bytes@);
    }
    let bits = u64_from_le_bytes(bytes.as_slice());
    Some(PerceptualFingerprint { bits })
}

/// Decoding inverts encoding: the encoded form of any fingerprint
/// decodes back to exactly that fingerprint.
pub proof fn lemma_fingerprint_round_trip(fp: PerceptualFingerprint)
    ensures
        spec_decode_fingerprint(spec_encode_fingerprint(fp)) == Some(fp),
{
    lemma_hex_round_trip(spec_u64_to_le_bytes(fp.bits));
    lemma_auto_spec_u64_to_from_le_bytes();
}

/// A fingerprint wrapped for use as a key of the similarity index.
#[derive(Debug, Clone, Copy, PartialEq, Eq, Structural)]
pub struct ComparableHash(pub PerceptualFingerprint);

/// The Hamming-distance metric over wrapped fingerprints.
pub struct PerceptualMetric;

impl PerceptualMetric {
    /// The distance between two fingerprints under this metric.
    pub fn distance(&self, a: &ComparableHash, b: &ComparableHash) -> (d: u32)
        ensures
            d == hamming_distance(a.0.bits, b.0.bits),
            d <= 64,
    {
        compare_hashes(&a.0, &b.0)
    }

    /// The distance between two fingerprints if it is within `threshold`,
    /// and `None` otherwise.
    pub fn threshold_distance(&self, a: &ComparableHash, b: &ComparableHash, threshold: u32) -> (r:
        Option<u32>)
        ensures
            r matches Some(d) ==> d == hamming_distance(a.0.bits, b.0.bits) && d <= threshold,
            r is None ==> hamming_distance(a.0.bits, b.0.bits) > threshold,
    {
        let dist = self.distance(a, b);
        if dist <= threshold {
            Some(dist)
        } else {
            None
        }
    }
}

} // verus!
