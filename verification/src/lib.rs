//! Duplicate-image detection engine.
//!
//! The engine finds duplicate and near-duplicate images among a set of
//! files in two stages: an exact-match stage that buckets files by size
//! and a cheap partial content signature, and a visual stage that
//! compares 64-bit perceptual fingerprints by Hamming distance.
//! Fingerprints are kept in a cache keyed by path and modification time
//! so unchanged files are never fingerprinted twice.

pub mod cache;
pub mod detect;
pub mod fingerprint;
pub mod hashing;
pub mod imaging;
pub mod index;
pub mod scanner;
pub mod sidecar;
pub mod sorter;

pub use fingerprint::HashType;
pub use fingerprint::PerceptualFingerprint;
