//! The duplicate-detection pipeline.
//!
//! Detection runs in stages over a fixed list of input files.  First
//! the files are bucketed by size; files sharing a size are candidates
//! for exact duplication and get a partial content signature.  Files
//! sharing size and signature form exact groups.  The visual scan set
//! is every non-candidate plus one representative per exact group;
//! its members are fingerprinted (or served from the cache), the
//! fingerprints are put in a similarity index, and duplicate groups
//! are extracted by bounded-distance queries, pulling each claimed
//! representative's exact siblings into its group.  Reading files and
//! the filesystem is the embedding's concern: each stage here is a
//! function from the gathered data to the next stage's input.

use vstd::prelude::*;
use crate::cache::HashCache;
use crate::fingerprint::ComparableHash;
use crate::fingerprint::PerceptualMetric;
use crate::hashing::str_eq;
use crate::fingerprint::hamming_distance;
use crate::fingerprint::lemma_hamming_distance_symmetric;
use crate::index::SimilarityIndex;
use crate::index::lemma_query_matches_reflexive;
use crate::index::lemma_query_matches_sound;
use crate::index::lemma_query_matches_complete;
use crate::fingerprint::HashType;
use crate::fingerprint::PerceptualFingerprint;
use crate::fingerprint::spec_decode_fingerprint;
use crate::fingerprint::spec_encode_fingerprint;
use crate::fingerprint::decode_fingerprint;
use crate::fingerprint::encode_fingerprint;
use crate::imaging::fingerprint_image_bytes;
use crate::imaging::spec_image_fingerprint;

verus! {

/// One input file as the filesystem reported it: `size` is `None` when
/// the file could not be inspected at all, and `mtime` is the
/// modification time in seconds since the epoch, zero when unknown.
#[derive(Debug, Clone)]
pub struct FileMeta {
    pub path: String,
    pub filename: String,
    pub size: Option<u64>,
    pub mtime: u64,
}

/// One image in a detection result.
#[derive(Debug, Clone)]
pub struct ImageInfo {
    pub path: String,
    pub filename: String,
    pub size_bytes: u64,
}

impl ImageInfo {
    /// An equal copy of this record.
    pub fn duplicate(&self) -> (r: ImageInfo)
        ensures
            r.path@ == self.path@,
            r.filename@ == self.filename@,
            r.size_bytes == self.size_bytes,
    {
        ImageInfo {
            path: self.path.clone(),
            filename: self.filename.clone(),
            size_bytes: self.size_bytes,
        }
    }
}

/// An image together with its encoded perceptual fingerprint.
#[derive(Debug, Clone)]
pub struct ImageWithHash {
    pub info: ImageInfo,
    pub hash: String,
}

/// One group of duplicate images in the final result.
#[derive(Debug)]
pub struct DuplicateGroup {
    pub images: Vec<ImageInfo>,
}

/// The outcome of one detection run.
#[derive(Debug)]
pub struct DuplicateResult {
    pub groups: Vec<DuplicateGroup>,
    pub total_duplicates: usize,
    pub processed: usize,
    pub errors: usize,
}

/// One group of exact-duplicate candidates: the files (as indices into
/// the input list) that share both `size` and partial `signature`.
#[derive(Debug)]
pub struct ExactGroup {
    pub size: u64,
    pub signature: String,
    pub members: Vec<usize>,
}

/// Whether input file `i` shares its size with some other input file,
/// which makes it a candidate for exact duplication.
pub open spec fn is_size_candidate(files: Seq<FileMeta>, i: int) -> bool {
    &&& 0 <= i < files.len()
    &&& files[i].size is Some
    &&& exists|j: int| 0 <= j < files.len() && j != i && #[trigger] files[j].size == files[i].size
}

/// Marks the exact-match candidates: every file whose size is shared
/// with at least one other file.  All other files skip the exact stage
/// and go directly to the visual scan.
pub fn exact_candidates_mask(files: &Vec<FileMeta>) -> (mask: Vec<bool>)
    ensures
        mask@.len() == files@.len(),
        forall|i: int| 0 <= i < files@.len() ==> mask@[i] == is_size_candidate(files@, i),
{
    let n = files.len();
    let mut mask: Vec<bool> = Vec::new();
    let mut i: usize = 0;
    while i < n
        invariant
            n == files@.len(),
            i <= n,
            mask@.len() == i,
            forall|k: int| 0 <= k < i ==> mask@[k] == is_size_candidate(files@, k),
        decreases n - i,
    {
        let candidate = match files[i].size {
            Some(sz) => {
                let mut found = false;
                let mut j: usize = 0;
                while j < n
                    invariant
                        n == files@.len(),
                        i < n,
                        j <= n,
                        files@[i as int].size == Some(sz),
                        found == exists|k: int|
                            0 <= k < j && k != i && #[trigger] files@[k].size == files@[i as int].size,
                    decreases n - j,
                {
                    if j != i {
                        let matches = match files[j].size {
                            Some(s2) => s2 == sz,
                            None => false,
                        };
                        if matches {
                            found = true;
                        }
                    }
                    j = j + 1;
                }
                found
            },
            None => false,
        };
        mask.push(candidate);
        i = i + 1;
    }
    mask
}

/// Whether file `i` got a partial signature.
pub open spec fn has_signature(sigs: Seq<Option<String>>, i: int) -> bool {
    0 <= i < sigs.len() && sigs[i] is Some
}

/// Whether file `i` (with a signature) falls under the key of group `g`.
pub open spec fn key_matches(g: ExactGroup, files: Seq<FileMeta>, sigs: Seq<Option<String>>, i: int) -> bool {
    &&& files[i].size == Some(g.size)
    &&& sigs[i]->Some_0@ == g.signature@
}

/// Groups the signed candidates by (size, partial signature).  Each
/// file with a signature lands in exactly one group; two files with
/// the same size and the same signature always land in the same group.
/// Groups are created in first-seen order and members are listed in
/// input order, so the outcome is deterministic in the input.
pub fn build_exact_groups(files: &Vec<FileMeta>, sigs: &Vec<Option<String>>) -> (groups: Vec<
    ExactGroup,
>)
    requires
        sigs@.len() == files@.len(),
        forall|i: int| has_signature(sigs@, i) ==> files@[i].size is Some,
    ensures
        forall|k: int| 0 <= k < groups@.len() ==> groups@[k].members@.len() >= 1,
        forall|k: int, pos: int|
            0 <= k < groups@.len() && 0 <= pos < groups@[k].members@.len() ==> {
                let i = #[trigger] groups@[k].members@[pos] as int;
                &&& i < files@.len()
                &&& has_signature(sigs@, i)
                &&& key_matches(groups@[k], files@, sigs@, i)
            },
        forall|k1: int, k2: int|
            0 <= k1 < groups@.len() && 0 <= k2 < groups@.len() && k1 != k2 ==> !(#[trigger] groups@[k1].size
                == #[trigger] groups@[k2].size && groups@[k1].signature@ == groups@[k2].signature@),
        forall|i: int|
            has_signature(sigs@, i) ==> exists|k: int, pos: int|
                0 <= k < groups@.len() && 0 <= pos < groups@[k].members@.len()
                    && #[trigger] groups@[k].members@[pos] == i,
        forall|k1: int, p1: int, k2: int, p2: int|
            0 <= k1 < groups@.len() && 0 <= p1 < groups@[k1].members@.len() && 0 <= k2
                < groups@.len() && 0 <= p2 < groups@[k2].members@.len() && (k1 != k2 || p1 != p2)
                ==> #[trigger] groups@[k1].members@[p1] != #[trigger] groups@[k2].members@[p2],
        forall|i: int, j: int|
            has_signature(sigs@, i) && has_signature(sigs@, j) && #[trigger] files@[i].size
                == #[trigger] files@[j].size && sigs@[i]->Some_0@ == sigs@[j]->Some_0@ ==> exists|
                k: int,
            |
                0 <= k < groups@.len() && groups@[k].members@.contains(i as usize)
                    && groups@[k].members@.contains(j as usize),
{
    let n = files.len();
    let mut groups: Vec<ExactGroup> = Vec::new();
    let mut i: usize = 0;
    while i < n
        invariant
            n == files@.len(),
            sigs@.len() == files@.len(),
            forall|ii: int| has_signature(sigs@, ii) ==> files@[ii].size is Some,
            i <= n,
            forall|k: int| 0 <= k < groups@.len() ==> groups@[k].members@.len() >= 1,
            forall|k: int, pos: int|
                0 <= k < groups@.len() && 0 <= pos < groups@[k].members@.len() ==> {
                    let idx = #[trigger] groups@[k].members@[pos] as int;
                    &&& idx < i
                    &&& has_signature(sigs@, idx)
                    &&& key_matches(groups@[k], files@, sigs@, idx)
                },
            forall|k1: int, k2: int|
                0 <= k1 < groups@.len() && 0 <= k2 < groups@.len() && k1 != k2 ==> !(
                #[trigger] groups@[k1].size == #[trigger] groups@[k2].size && groups@[k1].signature@
                    == groups@[k2].signature@),
            forall|ii: int|
                0 <= ii < i && has_signature(sigs@, ii) ==> exists|k: int, pos: int|
                    0 <= k < groups@.len() && 0 <= pos < groups@[k].members@.len()
                        && #[trigger] groups@[k].members@[pos] == ii,
            forall|k1: int, p1: int, k2: int, p2: int|
                0 <= k1 < groups@.len() && 0 <= p1 < groups@[k1].members@.len() && 0 <= k2
                    < groups@.len() && 0 <= p2 < groups@[k2].members@.len() && (k1 != k2 || p1
                    != p2) ==> #[trigger] groups@[k1].members@[p1]
                    != #[trigger] groups@[k2].members@[p2],
        decreases n - i,
    {
        match &sigs[i] {
            Some(sig) => {
                assert(has_signature(sigs@, i as int));
                let size: u64 = match files[i].size {
                    Some(s) => s,
                    None => 0,
                };
                assert(files@[i as int].size == Some(size));
                let g_count = groups.len();
                let mut k: usize = 0;
                let mut found: Option<usize> = None;
                while k < g_count
                    invariant
                        g_count == groups@.len(),
                        k <= g_count,
                        match found {
                            Some(f) => f < g_count && groups@[f as int].size == size && groups@[f as int].signature@ == sig@,
                            None => forall|kk: int|
                                0 <= kk < k ==> !(#[trigger] groups@[kk].size == size && groups@[kk].signature@ == sig@),
                        },
                    decreases g_count - k,
                {
                    if found.is_none() {
                        if groups[k].size == size && groups[k].signature == *sig {
                            found = Some(k);
                        }
                    }
                    k = k + 1;
                }
                let ghost groups0 = groups@;
                match found {
                    Some(f) => {
                        let mut g = groups.remove(f);
                        let ghost gold = g;
                        g.members.push(i);
                        let ghost gnew = g;
                        groups.insert(f, g);
                        proof {
                            assert(groups@ =~= groups0.update(f as int, gnew));
                            assert(gnew.members@ == gold.members@.push(i));
                            assert(gnew.size == gold.size && gnew.signature@ == gold.signature@);
                            assert forall|k1: int, p1: int, k2: int, p2: int|
                                0 <= k1 < groups@.len() && 0 <= p1 < groups@[k1].members@.len() && 0
                                    <= k2 < groups@.len() && 0 <= p2 < groups@[k2].members@.len()
                                    && (k1 != k2 || p1 != p2) implies #[trigger] groups@[k1].members@[p1]
                                != #[trigger] groups@[k2].members@[p2] by {
                                if k1 == f as int && p1 == groups@[k1].members@.len() - 1 {
                                    assert(groups@[k1].members@[p1] == i);
                                    assert((groups@[k2].members@[p2] as int) < i as int);
                                } else if k2 == f as int && p2 == groups@[k2].members@.len() - 1 {
                                    assert(groups@[k2].members@[p2] == i);
                                    assert((groups@[k1].members@[p1] as int) < i as int);
                                } else {
                                    assert(groups@[k1].members@[p1] == groups0[k1].members@[p1]);
                                    assert(groups@[k2].members@[p2] == groups0[k2].members@[p2]);
                                }
                            }
                            assert forall|ii: int|
                                0 <= ii < i + 1 && has_signature(sigs@, ii) implies exists|
                                k: int,
                                pos: int,
                            |
                                0 <= k < groups@.len() && 0 <= pos < groups@[k].members@.len()
                                    && #[trigger] groups@[k].members@[pos] == ii by {
                                if ii == i as int {
                                    assert(groups@[f as int].members@[groups@[f as int].members@.len() - 1] == ii);
                                } else {
                                    let (k, pos) = choose|k: int, pos: int|
                                        0 <= k < groups0.len() && 0 <= pos < groups0[k].members@.len() && #[trigger] groups0[k].members@[pos]
                                            == ii;
                                    assert(groups@[k].members@[pos] == ii);
                                }
                            }
                        }
                    },
                    None => {
                        let mut members: Vec<usize> = Vec::new();
                        members.push(i);
                        groups.push(ExactGroup { size, signature: sig.clone(), members });
                        proof {
                            assert(groups@.drop_last() =~= groups0);
                            assert(groups@.last().members@ =~= seq![i]);
                            assert forall|ii: int|
                                0 <= ii < i + 1 && has_signature(sigs@, ii) implies exists|
                                k: int,
                                pos: int,
                            |
                                0 <= k < groups@.len() && 0 <= pos < groups@[k].members@.len()
                                    && #[trigger] groups@[k].members@[pos] == ii by {
                                if ii == i as int {
                                    assert(groups@[groups@.len() - 1].members@[0] == ii);
                                } else {
                                    let (k, pos) = choose|k: int, pos: int|
                                        0 <= k < groups0.len() && 0 <= pos < groups0[k].members@.len() && #[trigger] groups0[k].members@[pos]
                                            == ii;
                                    assert(groups@[k].members@[pos] == ii);
                                }
                            }
                        }
                    },
                }
            },
            None => {},
        }
        i = i + 1;
    }
    proof {
        assert forall|i: int, j: int|
            has_signature(sigs@, i) && has_signature(sigs@, j) && #[trigger] files@[i].size
                == #[trigger] files@[j].size && sigs@[i]->Some_0@ == sigs@[j]->Some_0@ implies
            exists|k: int|
                0 <= k < groups@.len() && groups@[k].members@.contains(i as usize) && groups@[k].members@.contains(j as usize) by {
            let (k1, p1) = choose|k1: int, p1: int|
                0 <= k1 < groups@.len() && 0 <= p1 < groups@[k1].members@.len()
                    && #[trigger] groups@[k1].members@[p1] == i;
            let (k2, p2) = choose|k2: int, p2: int|
                0 <= k2 < groups@.len() && 0 <= p2 < groups@[k2].members@.len()
                    && #[trigger] groups@[k2].members@[p2] == j;
            assert(key_matches(groups@[k1], files@, sigs@, i));
            assert(key_matches(groups@[k2], files@, sigs@, j));
            assert(groups@[k1].size == groups@[k2].size && groups@[k1].signature@ == groups@[k2].signature@);
            assert(k1 == k2);
            assert(groups@[k1].members@.contains(i as usize));
            assert(groups@[k1].members@.contains(j as usize));
        }
    }
    groups
}

/// The indices of the files that are not exact-match candidates, in
/// input order.
pub open spec fn non_candidate_indices(mask: Seq<bool>) -> Seq<usize>
    decreases mask.len(),
{
    if mask.len() == 0 {
        Seq::empty()
    } else {
        non_candidate_indices(mask.drop_last()) + if mask.last() {
            Seq::empty()
        } else {
            seq![(mask.len() - 1) as usize]
        }
    }
}

/// Builds the visual scan set: every non-candidate file in input
/// order, then the first member of each exact group as that group's
/// representative.  Exact siblings other than the representative are
/// not scanned; they are merged back during group extraction.
pub fn visual_scan_set(mask: &Vec<bool>, groups: &Vec<ExactGroup>) -> (scan: Vec<usize>)
    requires
        forall|k: int|
            0 <= k < groups@.len() ==> #[trigger] groups@[k].members@.len() >= 1 && (groups@[k].members@[0] as int) < mask@.len(),
    ensures
        scan@ == non_candidate_indices(mask@) + groups@.map_values(
            |g: ExactGroup| g.members@[0],
        ),
        forall|pos: int| 0 <= pos < scan@.len() ==> (#[trigger] scan@[pos] as int) < mask@.len(),
{
    let n = mask.len();
    let mut scan: Vec<usize> = Vec::new();
    let mut i: usize = 0;
    proof {
        assert(mask@.subrange(0, 0) =~= Seq::<bool>::empty());
    }
    while i < n
        invariant
            n == mask@.len(),
            i <= n,
            scan@ == non_candidate_indices(mask@.subrange(0, i as int)),
            forall|pos: int| 0 <= pos < scan@.len() ==> (#[trigger] scan@[pos] as int) < i,
        decreases n - i,
    {
        proof {
            assert(mask@.subrange(0, i + 1).drop_last() =~= mask@.subrange(0, i as int));
            assert(mask@.subrange(0, i + 1).last() == mask@[i as int]);
        }
        if !mask[i] {
            scan.push(i);
            proof {
                assert(scan@ =~= non_candidate_indices(mask@.subrange(0, i + 1)));
            }
        } else {
            proof {
                assert(scan@ =~= non_candidate_indices(mask@.subrange(0, i + 1)));
            }
        }
        i = i + 1;
    }
    proof {
        assert(mask@.subrange(0, n as int) =~= mask@);
    }
    let g_count = groups.len();
    let mut k: usize = 0;
    proof {
        assert(groups@.subrange(0, 0).map_values(|g: ExactGroup| g.members@[0]) =~= Seq::<
            usize,
        >::empty());
        assert(scan@ =~= non_candidate_indices(mask@) + groups@.subrange(0, 0).map_values(
            |g: ExactGroup| g.members@[0],
        ));
    }
    while k < g_count
        invariant
            n == mask@.len(),
            g_count == groups@.len(),
            k <= g_count,
            forall|kk: int|
                0 <= kk < groups@.len() ==> #[trigger] groups@[kk].members@.len() >= 1 && (groups@[kk].members@[0] as int) < mask@.len(),
            scan@ == non_candidate_indices(mask@) + groups@.subrange(0, k as int).map_values(
                |g: ExactGroup| g.members@[0],
            ),
            forall|pos: int| 0 <= pos < scan@.len() ==> (#[trigger] scan@[pos] as int) < n,
        decreases g_count - k,
    {
        let rep = groups[k].members[0];
        scan.push(rep);
        proof {
            assert(scan@.last() == rep);
            assert((rep as int) < n);
            let f = |g: ExactGroup| g.members@[0];
            assert(groups@.subrange(0, k + 1).map_values(f) =~= groups@.subrange(0, k as int).map_values(
                f,
            ).push(groups@[k as int].members@[0]));
            assert(scan@ =~= non_candidate_indices(mask@) + groups@.subrange(0, k + 1).map_values(
                f,
            ));
        }
        k = k + 1;
    }
    proof {
        assert(groups@.subrange(0, g_count as int) =~= groups@);
    }
    scan
}

/// Fingerprints one visual-scan item from its raw file bytes and, on
/// success, records the encoded fingerprint in the cache under the
/// item's path and modification time, returning the encoding of
/// exactly the fingerprint the bytes yield.  It succeeds exactly when
/// the bytes yield a decodable image; otherwise the cache is left
/// unchanged and the item is dropped from the run.
pub fn fingerprint_and_record(
    cache: &mut HashCache,
    path: &String,
    mtime: u64,
    data: &Vec<u8>,
) -> (r: Option<String>)
    requires
        old(cache).wf(),
    ensures
        final(cache).wf(),
        r is Some <==> spec_image_fingerprint(data@, HashType::Difference) is Some,
        match r {
            Some(h) => h@ == spec_encode_fingerprint(
                PerceptualFingerprint {
                    bits: spec_image_fingerprint(data@, HashType::Difference)->Some_0,
                },
            ) && final(cache)@ == old(cache)@.insert(path@, (h@, mtime)),
            None => final(cache)@ == old(cache)@,
        },
{
    match fingerprint_image_bytes(data, HashType::Difference) {
        Some(fp) => {
            let encoded = encode_fingerprint(&fp);
            let copy = encoded.clone();
            cache.insert(path.clone(), mtime, copy);
            proof {
                assert(fp == PerceptualFingerprint {
                    bits: spec_image_fingerprint(data@, HashType::Difference)->Some_0,
                });
            }
            Some(encoded)
        },
        None => None,
    }
}

/// The number of duplicates a list of groups stands for: every group
/// member beyond each group's first.
pub open spec fn spec_total_duplicates(gs: Seq<DuplicateGroup>) -> int
    decreases gs.len(),
{
    if gs.len() == 0 {
        0
    } else {
        spec_total_duplicates(gs.drop_last()) + gs.last().images@.len() - 1
    }
}

proof fn lemma_total_duplicates_nonneg(gs: Seq<DuplicateGroup>)
    requires
        forall|g: int| 0 <= g < gs.len() ==> #[trigger] gs[g].images@.len() >= 1,
    ensures
        spec_total_duplicates(gs) >= 0,
    decreases gs.len(),
{
    if gs.len() > 0 {
        lemma_total_duplicates_nonneg(gs.drop_last());
    }
}

proof fn lemma_total_duplicates_prefix(gs: Seq<DuplicateGroup>, k: int)
    requires
        0 <= k <= gs.len(),
        forall|g: int| 0 <= g < gs.len() ==> #[trigger] gs[g].images@.len() >= 1,
    ensures
        spec_total_duplicates(gs.subrange(0, k)) <= spec_total_duplicates(gs),
        spec_total_duplicates(gs.subrange(0, k)) >= 0,
    decreases gs.len() - k,
{
    let prefix = gs.subrange(0, k);
    assert(forall|g: int| 0 <= g < prefix.len() ==> #[trigger] prefix[g].images@.len() >= 1);
    lemma_total_duplicates_nonneg(prefix);
    if k == gs.len() {
        assert(gs.subrange(0, k) =~= gs);
    } else {
        lemma_total_duplicates_prefix(gs, k + 1);
        assert(gs.subrange(0, k + 1).drop_last() =~= gs.subrange(0, k));
        assert(gs.subrange(0, k + 1).last() == gs[k]);
    }
}

/// The number of exact-match candidates that got no partial
/// signature: their file could not be read, so they were dropped from
/// the run and count as errors.
pub open spec fn spec_signature_failures(mask: Seq<bool>, sigs: Seq<Option<String>>) -> int
    decreases mask.len(),
{
    if mask.len() == 0 || sigs.len() != mask.len() {
        0
    } else {
        spec_signature_failures(mask.drop_last(), sigs.drop_last()) + if mask.last()
            && sigs.last() is None {
            1int
        } else {
            0int
        }
    }
}

/// Counts the exact-match candidates whose partial signature is
/// missing: files that fell out of the run because their bytes could
/// not be read during the exact stage.
pub fn count_signature_failures(mask: &Vec<bool>, sigs: &Vec<Option<String>>) -> (n: usize)
    requires
        mask@.len() == sigs@.len(),
    ensures
        n == spec_signature_failures(mask@, sigs@),
{
    let count = mask.len();
    let mut n: usize = 0;
    let mut i: usize = 0;
    proof {
        assert(mask@.subrange(0, 0) =~= Seq::<bool>::empty());
        assert(sigs@.subrange(0, 0) =~= Seq::<Option<String>>::empty());
    }
    while i < count
        invariant
            count == mask@.len(),
            mask@.len() == sigs@.len(),
            i <= count,
            n <= i,
            n == spec_signature_failures(mask@.subrange(0, i as int), sigs@.subrange(0, i as int)),
        decreases count - i,
    {
        proof {
            assert(mask@.subrange(0, i + 1).drop_last() =~= mask@.subrange(0, i as int));
            assert(sigs@.subrange(0, i + 1).drop_last() =~= sigs@.subrange(0, i as int));
            assert(mask@.subrange(0, i + 1).last() == mask@[i as int]);
            assert(sigs@.subrange(0, i + 1).last() == sigs@[i as int]);
        }
        if mask[i] && sigs[i].is_none() {
            n = n + 1;
        }
        i = i + 1;
    }
    proof {
        assert(mask@.subrange(0, count as int) =~= mask@);
        assert(sigs@.subrange(0, count as int) =~= sigs@);
    }
    n
}

/// Assembles the final result of a detection run.  The total duplicate
/// count is the sum over all groups of the group size minus one, and
/// the error count adds the visual-scan items that produced no
/// fingerprint to the exact-stage candidates whose file could not be
/// read: every file that fell out of the run is counted.
pub fn build_result(
    groups: Vec<DuplicateGroup>,
    processed: usize,
    scan_count: usize,
    hashed_count: usize,
    exact_errors: usize,
) -> (r: DuplicateResult)
    requires
        hashed_count <= scan_count,
        scan_count - hashed_count + exact_errors <= usize::MAX,
        forall|g: int| 0 <= g < groups@.len() ==> #[trigger] groups@[g].images@.len() >= 1,
        spec_total_duplicates(groups@) <= usize::MAX,
    ensures
        r.groups@ == groups@,
        r.total_duplicates == spec_total_duplicates(groups@),
        r.processed == processed,
        r.errors == scan_count - hashed_count + exact_errors,
{
    let g_count = groups.len();
    let mut total: usize = 0;
    let mut k: usize = 0;
    proof {
        assert(groups@.subrange(0, 0) =~= Seq::<DuplicateGroup>::empty());
    }
    while k < g_count
        invariant
            g_count == groups@.len(),
            k <= g_count,
            forall|g: int| 0 <= g < groups@.len() ==> #[trigger] groups@[g].images@.len() >= 1,
            spec_total_duplicates(groups@) <= usize::MAX,
            total == spec_total_duplicates(groups@.subrange(0, k as int)),
        decreases g_count - k,
    {
        proof {
            lemma_total_duplicates_prefix(groups@, k + 1);
            assert(groups@.subrange(0, k + 1).drop_last() =~= groups@.subrange(0, k as int));
            assert(groups@.subrange(0, k + 1).last() == groups@[k as int]);
        }
        total = total + (groups[k].images.len() - 1);
        k = k + 1;
    }
    proof {
        assert(groups@.subrange(0, g_count as int) =~= groups@);
    }
    DuplicateResult {
        groups,
        total_duplicates: total,
        processed,
        errors: (scan_count - hashed_count) + exact_errors,
    }
}

/// All input files have pairwise distinct paths; the path is a file's
/// unique identifier.
pub open spec fn distinct_file_paths(files: Seq<FileMeta>) -> bool {
    forall|i: int, j: int|
        0 <= i < j < files.len() ==> (#[trigger] files[i].path@) != (#[trigger] files[j].path@)
}

/// All fingerprinted items have pairwise distinct paths.
pub open spec fn distinct_hashed_paths(hashed: Seq<ImageWithHash>) -> bool {
    forall|i: int, j: int|
        0 <= i < j < hashed.len() ==> (#[trigger] hashed[i].info.path@) != (#[trigger] hashed[j].info.path@)
}

/// The exact groups are well formed over the input files: every group
/// has a member, members are valid file indices, and no file index
/// occurs twice, within or across groups.
pub open spec fn exact_groups_wf(files: Seq<FileMeta>, eg: Seq<ExactGroup>) -> bool {
    &&& forall|k: int| 0 <= k < eg.len() ==> (#[trigger] eg[k].members@.len()) >= 1
    &&& forall|k: int, pos: int|
        0 <= k < eg.len() && 0 <= pos < eg[k].members@.len() ==> (#[trigger] eg[k].members@[pos] as int) < files.len()
    &&& forall|k1: int, p1: int, k2: int, p2: int|
        0 <= k1 < eg.len() && 0 <= p1 < eg[k1].members@.len() && 0 <= k2 < eg.len() && 0 <= p2
            < eg[k2].members@.len() && (k1 != k2 || p1 != p2) ==> (#[trigger] eg[k1].members@[p1])
            != (#[trigger] eg[k2].members@[p2])
}

/// Whether `p` is the path of some fingerprinted item.
pub open spec fn is_hashed_path(hashed: Seq<ImageWithHash>, p: Seq<char>) -> bool {
    exists|a: int| 0 <= a < hashed.len() && (#[trigger] hashed[a].info.path@) == p
}

/// Whether `p` is the path of some exact-group member.
pub open spec fn is_exact_member_path(files: Seq<FileMeta>, eg: Seq<ExactGroup>, p: Seq<char>) -> bool {
    exists|k: int, pos: int|
        0 <= k < eg.len() && 0 <= pos < eg[k].members@.len() && files[#[trigger] eg[k].members@[pos] as int].path@ == p
}

/// Only the first member of each exact group (its representative) was
/// fingerprinted; the other members' paths are not among the
/// fingerprinted items.
pub open spec fn non_reps_not_hashed(
    files: Seq<FileMeta>,
    eg: Seq<ExactGroup>,
    hashed: Seq<ImageWithHash>,
) -> bool {
    forall|k: int, pos: int|
        0 <= k < eg.len() && 1 <= pos < eg[k].members@.len() ==> !is_hashed_path(
            hashed,
            files[#[trigger] eg[k].members@[pos] as int].path@,
        )
}

/// Whether `p` is the path of an item already claimed by some group.
spec fn claimed_path(hashed: Seq<ImageWithHash>, visited: Seq<bool>, p: Seq<char>) -> bool {
    exists|j: int| 0 <= j < hashed.len() && visited[j] && (#[trigger] hashed[j].info.path@) == p
}

/// The path of a group's representative: its first member.
pub open spec fn rep_path(files: Seq<FileMeta>, g: ExactGroup) -> Seq<char> {
    files[g.members@[0] as int].path@
}

/// Whether `p` is a non-representative member path of some exact group
/// whose siblings were already merged into an output group.
spec fn sibling_of_used(
    files: Seq<FileMeta>,
    eg: Seq<ExactGroup>,
    group_used: Seq<bool>,
    p: Seq<char>,
) -> bool {
    exists|k: int, pos: int|
        0 <= k < eg.len() && group_used[k] && 1 <= pos < eg[k].members@.len() && files[#[trigger] eg[k].members@[pos] as int].path@ == p
}

/// Every path placed in the output so far came from a claimed item or
/// from the merged siblings of a used exact group.
spec fn path_sourced(
    files: Seq<FileMeta>,
    eg: Seq<ExactGroup>,
    hashed: Seq<ImageWithHash>,
    visited: Seq<bool>,
    group_used: Seq<bool>,
    p: Seq<char>,
) -> bool {
    claimed_path(hashed, visited, p) || sibling_of_used(files, eg, group_used, p)
}

spec fn infos_sourced(
    files: Seq<FileMeta>,
    eg: Seq<ExactGroup>,
    hashed: Seq<ImageWithHash>,
    visited: Seq<bool>,
    group_used: Seq<bool>,
    infos: Seq<ImageInfo>,
) -> bool {
    forall|i: int|
        0 <= i < infos.len() ==> path_sourced(
            files,
            eg,
            hashed,
            visited,
            group_used,
            (#[trigger] infos[i]).path@,
        )
}

spec fn infos_distinct(infos: Seq<ImageInfo>) -> bool {
    forall|i: int, j: int|
        0 <= i < j < infos.len() ==> (#[trigger] infos[i].path@) != (#[trigger] infos[j].path@)
}

/// No path occurs twice in the output, neither within one group nor
/// across two groups.
pub open spec fn out_groups_distinct(out: Seq<DuplicateGroup>) -> bool {
    forall|g1: int, i1: int, g2: int, i2: int|
        0 <= g1 < out.len() && 0 <= i1 < out[g1].images@.len() && 0 <= g2 < out.len() && 0 <= i2
            < out[g2].images@.len() && (g1 != g2 || i1 != i2) ==> (
        #[trigger] out[g1].images@[i1].path@) != (#[trigger] out[g2].images@[i2].path@)
}

spec fn out_sourced(
    files: Seq<FileMeta>,
    eg: Seq<ExactGroup>,
    hashed: Seq<ImageWithHash>,
    visited: Seq<bool>,
    group_used: Seq<bool>,
    out: Seq<DuplicateGroup>,
) -> bool {
    forall|g: int|
        0 <= g < out.len() ==> infos_sourced(
            files,
            eg,
            hashed,
            visited,
            group_used,
            (#[trigger] out[g]).images@,
        )
}

spec fn infos_disjoint_from_out(out: Seq<DuplicateGroup>, infos: Seq<ImageInfo>) -> bool {
    forall|g: int, i1: int, i2: int|
        0 <= g < out.len() && 0 <= i1 < out[g].images@.len() && 0 <= i2 < infos.len() ==> (
        #[trigger] out[g].images@[i1].path@) != (#[trigger] infos[i2].path@)
}

proof fn lemma_file_paths_injective(files: Seq<FileMeta>, i: int, j: int)
    requires
        distinct_file_paths(files),
        0 <= i < files.len(),
        0 <= j < files.len(),
        files[i].path@ == files[j].path@,
    ensures
        i == j,
{
    if i < j {
        assert(files[i].path@ != files[j].path@);
    } else if j < i {
        assert(files[j].path@ != files[i].path@);
    }
}

proof fn lemma_hashed_paths_injective(hashed: Seq<ImageWithHash>, i: int, j: int)
    requires
        distinct_hashed_paths(hashed),
        0 <= i < hashed.len(),
        0 <= j < hashed.len(),
        hashed[i].info.path@ == hashed[j].info.path@,
    ensures
        i == j,
{
    if i < j {
        assert(hashed[i].info.path@ != hashed[j].info.path@);
    } else if j < i {
        assert(hashed[j].info.path@ != hashed[i].info.path@);
    }
}

/// A not-yet-claimed item's path cannot already stand in the output:
/// it is not a claimed path and not a merged sibling path.
proof fn lemma_hashed_path_fresh(
    files: Seq<FileMeta>,
    eg: Seq<ExactGroup>,
    hashed: Seq<ImageWithHash>,
    visited: Seq<bool>,
    group_used: Seq<bool>,
    j: int,
)
    requires
        distinct_hashed_paths(hashed),
        non_reps_not_hashed(files, eg, hashed),
        0 <= j < hashed.len(),
        j < visited.len(),
        !visited[j],
    ensures
        !path_sourced(files, eg, hashed, visited, group_used, hashed[j].info.path@),
{
    let p = hashed[j].info.path@;
    if claimed_path(hashed, visited, p) {
        let j2 = choose|j2: int|
            0 <= j2 < hashed.len() && visited[j2] && (#[trigger] hashed[j2].info.path@) == p;
        lemma_hashed_paths_injective(hashed, j, j2);
        assert(false);
    }
    if sibling_of_used(files, eg, group_used, p) {
        let (k, pos) = choose|k: int, pos: int|
            0 <= k < eg.len() && group_used[k] && 1 <= pos < eg[k].members@.len() && files[#[trigger] eg[k].members@[pos] as int].path@ == p;
        assert(is_hashed_path(hashed, p));
        assert(!is_hashed_path(hashed, files[eg[k].members@[pos] as int].path@));
        assert(false);
    }
}

/// A non-representative member path of a group whose siblings were not
/// merged yet cannot already stand in the output.
proof fn lemma_sibling_path_fresh(
    files: Seq<FileMeta>,
    eg: Seq<ExactGroup>,
    hashed: Seq<ImageWithHash>,
    visited: Seq<bool>,
    group_used: Seq<bool>,
    k: int,
    pos: int,
)
    requires
        distinct_file_paths(files),
        exact_groups_wf(files, eg),
        non_reps_not_hashed(files, eg, hashed),
        0 <= k < eg.len(),
        k < group_used.len(),
        1 <= pos < eg[k].members@.len(),
        !group_used[k],
    ensures
        !path_sourced(files, eg, hashed, visited, group_used, files[eg[k].members@[pos] as int].path@),
{
    let p = files[eg[k].members@[pos] as int].path@;
    if claimed_path(hashed, visited, p) {
        let j2 = choose|j2: int|
            0 <= j2 < hashed.len() && visited[j2] && (#[trigger] hashed[j2].info.path@) == p;
        assert(is_hashed_path(hashed, p));
        assert(!is_hashed_path(hashed, files[eg[k].members@[pos] as int].path@));
        assert(false);
    }
    if sibling_of_used(files, eg, group_used, p) {
        let (k2, pos2) = choose|k2: int, pos2: int|
            0 <= k2 < eg.len() && group_used[k2] && 1 <= pos2 < eg[k2].members@.len() && files[#[trigger] eg[k2].members@[pos2] as int].path@ == p;
        lemma_file_paths_injective(
            files,
            eg[k].members@[pos] as int,
            eg[k2].members@[pos2] as int,
        );
        assert(k2 == k && pos2 == pos);
        assert(false);
    }
}

/// Claimed-and-merged bookkeeping only grows, so everything sourced
/// stays sourced.
proof fn lemma_sources_monotone(
    files: Seq<FileMeta>,
    eg: Seq<ExactGroup>,
    hashed: Seq<ImageWithHash>,
    v1: Seq<bool>,
    v2: Seq<bool>,
    u1: Seq<bool>,
    u2: Seq<bool>,
)
    requires
        v1.len() == hashed.len(),
        u1.len() == eg.len(),
        v1.len() == v2.len(),
        u1.len() == u2.len(),
        forall|j: int| 0 <= j < v1.len() && v1[j] ==> v2[j],
        forall|k: int| 0 <= k < u1.len() && u1[k] ==> u2[k],
    ensures
        forall|p: Seq<char>|
            #[trigger] path_sourced(files, eg, hashed, v1, u1, p) ==> path_sourced(
                files,
                eg,
                hashed,
                v2,
                u2,
                p,
            ),
{
    assert forall|p: Seq<char>| #[trigger] path_sourced(files, eg, hashed, v1, u1, p) implies
        path_sourced(files, eg, hashed, v2, u2, p) by {
        if claimed_path(hashed, v1, p) {
            let j = choose|j: int|
                0 <= j < hashed.len() && v1[j] && (#[trigger] hashed[j].info.path@) == p;
            assert(v2[j]);
            assert(claimed_path(hashed, v2, p));
        } else {
            let (k, pos) = choose|k: int, pos: int|
                0 <= k < eg.len() && u1[k] && 1 <= pos < eg[k].members@.len() && files[#[trigger] eg[k].members@[pos] as int].path@ == p;
            assert(u2[k]);
            assert(sibling_of_used(files, eg, u2, p));
        }
    }
}

/// Whether `p` is the path of a member of `mem` at a position at
/// least one and below `bound`.
spec fn is_batch_path(files: Seq<FileMeta>, mem: Seq<usize>, bound: int, p: Seq<char>) -> bool {
    exists|q2: int| 1 <= q2 < bound && p == files[(#[trigger] mem[q2]) as int].path@
}

proof fn lemma_batch_path_pick(files: Seq<FileMeta>, mem: Seq<usize>, bound: int, p: Seq<char>) -> (q2: int)
    requires
        is_batch_path(files, mem, bound, p),
    ensures
        1 <= q2 < bound,
        p == files[mem[q2] as int].path@,
{
    choose|q2: int| 1 <= q2 < bound && p == files[(#[trigger] mem[q2]) as int].path@
}

proof fn lemma_batch_path_widen(
    files: Seq<FileMeta>,
    mem: Seq<usize>,
    b1: int,
    b2: int,
    p: Seq<char>,
)
    requires
        is_batch_path(files, mem, b1, p),
        b1 <= b2,
    ensures
        is_batch_path(files, mem, b2, p),
{
    let q2 = lemma_batch_path_pick(files, mem, b1, p);
    assert(1 <= q2 < b2 && p == files[(mem[q2]) as int].path@);
}

proof fn lemma_batch_path_intro(files: Seq<FileMeta>, mem: Seq<usize>, bound: int, q2: int)
    requires
        1 <= q2 < bound,
    ensures
        is_batch_path(files, mem, bound, files[mem[q2] as int].path@),
{
    assert(1 <= q2 < bound && files[mem[q2] as int].path@ == files[(mem[q2]) as int].path@);
}

/// Whether some record in `infos` carries path `p`.
pub open spec fn info_seq_has_path(infos: Seq<ImageInfo>, p: Seq<char>) -> bool {
    exists|i: int| 0 <= i < infos.len() && (#[trigger] infos[i]).path@ == p
}

/// Whether output group `gi` holds the path of every member of `g`.
pub open spec fn group_in_output(
    files: Seq<FileMeta>,
    g: ExactGroup,
    out: Seq<DuplicateGroup>,
    gi: int,
) -> bool {
    forall|pos: int|
        0 <= pos < g.members@.len() ==> info_seq_has_path(
            out[gi].images@,
            files[(#[trigger] g.members@[pos]) as int].path@,
        )
}

/// Whether the records in `infos` hold the path of every member of `g`.
spec fn group_in_infos(files: Seq<FileMeta>, g: ExactGroup, infos: Seq<ImageInfo>) -> bool {
    forall|pos: int|
        0 <= pos < g.members@.len() ==> info_seq_has_path(
            infos,
            files[(#[trigger] g.members@[pos]) as int].path@,
        )
}

/// Whether some fingerprinted item with path `p` decodes to a usable
/// fingerprint.
pub open spec fn is_hashed_decodable(hashed: Seq<ImageWithHash>, p: Seq<char>) -> bool {
    exists|j: int|
        0 <= j < hashed.len() && (#[trigger] hashed[j].info.path@) == p && spec_decode_fingerprint(
            hashed[j].hash@,
        ) is Some
}

/// Whether group `g` has a member with path `p`.
pub open spec fn group_contains_path(files: Seq<FileMeta>, g: ExactGroup, p: Seq<char>) -> bool {
    exists|pos: int|
        0 <= pos < g.members@.len() && files[(#[trigger] g.members@[pos]) as int].path@ == p
}

/// Every claimed item's containing exact groups have been merged,
/// except possibly those of the item `excl`.
spec fn claims_propagated_except(
    files: Seq<FileMeta>,
    eg: Seq<ExactGroup>,
    hashed: Seq<ImageWithHash>,
    visited: Seq<bool>,
    group_used: Seq<bool>,
    excl: int,
) -> bool {
    forall|j: int, k: int|
        #![trigger group_contains_path(files, eg[k], hashed[j].info.path@)]
        0 <= j < hashed.len() && visited[j] && j != excl && 0 <= k < eg.len()
            && group_contains_path(files, eg[k], hashed[j].info.path@) ==> group_used[k]
}

/// The fingerprint bits a stored hash string decodes to, if any.
pub open spec fn spec_bits_of(s: Seq<char>) -> Option<u64> {
    match spec_decode_fingerprint(s) {
        Some(fp) => Some(fp.bits),
        None => None,
    }
}

proof fn lemma_claims_propagated_monotone(
    files: Seq<FileMeta>,
    eg: Seq<ExactGroup>,
    hashed: Seq<ImageWithHash>,
    visited: Seq<bool>,
    u1: Seq<bool>,
    u2: Seq<bool>,
    excl: int,
)
    requires
        u1.len() == eg.len(),
        u1.len() == u2.len(),
        forall|k: int| 0 <= k < u1.len() && u1[k] ==> u2[k],
        claims_propagated_except(files, eg, hashed, visited, u1, excl),
    ensures
        claims_propagated_except(files, eg, hashed, visited, u2, excl),
{
    assert forall|j: int, k: int|
        #![trigger group_contains_path(files, eg[k], hashed[j].info.path@)]
        0 <= j < hashed.len() && visited[j] && j != excl && 0 <= k < eg.len()
            && group_contains_path(files, eg[k], hashed[j].info.path@) implies u2[k] by {
        assert(u1[k]);
    }
}

spec fn claims_propagated(
    files: Seq<FileMeta>,
    eg: Seq<ExactGroup>,
    hashed: Seq<ImageWithHash>,
    visited: Seq<bool>,
    group_used: Seq<bool>,
) -> bool {
    claims_propagated_except(files, eg, hashed, visited, group_used, -1)
}

proof fn lemma_has_path_extend(infos: Seq<ImageInfo>, extended: Seq<ImageInfo>, p: Seq<char>)
    requires
        infos.len() <= extended.len(),
        forall|i: int| 0 <= i < infos.len() ==> extended[i] == infos[i],
        info_seq_has_path(infos, p),
    ensures
        info_seq_has_path(extended, p),
{
    let i = choose|i: int| 0 <= i < infos.len() && (#[trigger] infos[i]).path@ == p;
    assert((extended[i]).path@ == p);
}

proof fn lemma_group_in_infos_extend(
    files: Seq<FileMeta>,
    g: ExactGroup,
    infos: Seq<ImageInfo>,
    extended: Seq<ImageInfo>,
)
    requires
        infos.len() <= extended.len(),
        forall|i: int| 0 <= i < infos.len() ==> extended[i] == infos[i],
        group_in_infos(files, g, infos),
    ensures
        group_in_infos(files, g, extended),
{
    assert forall|pos: int| 0 <= pos < g.members@.len() implies info_seq_has_path(
        extended,
        files[(#[trigger] g.members@[pos]) as int].path@,
    ) by {
        lemma_has_path_extend(infos, extended, files[g.members@[pos] as int].path@);
    }
}

/// The groups merged so far, when they have at least two members, lie
/// whole in the output or in the group under construction.
spec fn used_groups_covered(
    files: Seq<FileMeta>,
    eg: Seq<ExactGroup>,
    group_used: Seq<bool>,
    out: Seq<DuplicateGroup>,
    members: Seq<ImageInfo>,
    excl: int,
) -> bool {
    forall|k: int|
        0 <= k < eg.len() && group_used[k] && (#[trigger] eg[k].members@.len()) >= 2 && k != excl
            ==> (exists|gi: int| 0 <= gi < out.len() && group_in_output(files, eg[k], out, gi))
            || group_in_infos(files, eg[k], members)

}

/// Byte-identical files always share an output group.  Two files
/// that read identically share their size and their partial
/// signature, so `build_exact_groups` puts them in one exact group;
/// whenever every two-member-or-larger exact group's representative
/// was fingerprinted to a decodable encoding, `extract_groups` puts
/// that whole group -- both files among it -- into a single output
/// group.  The two quantified hypotheses are exactly what those two
/// functions ensure.  (A pair of byte-identical files whose content
/// no image decoder accepts has no decodable representative and is
/// dropped with an error instead.)
pub proof fn lemma_identical_files_share_group(
    files: Seq<FileMeta>,
    sigs: Seq<Option<String>>,
    eg: Seq<ExactGroup>,
    hashed: Seq<ImageWithHash>,
    out: Seq<DuplicateGroup>,
    i: usize,
    j: usize,
)
    requires
        has_signature(sigs, i as int),
        has_signature(sigs, j as int),
        i != j,
        files[i as int].size == files[j as int].size,
        sigs[i as int]->Some_0@ == sigs[j as int]->Some_0@,
        forall|i2: int, j2: int|
            has_signature(sigs, i2) && has_signature(sigs, j2) && #[trigger] files[i2].size
                == #[trigger] files[j2].size && sigs[i2]->Some_0@ == sigs[j2]->Some_0@ ==> exists|
                k: int,
            |
                0 <= k < eg.len() && eg[k].members@.contains(i2 as usize)
                    && eg[k].members@.contains(j2 as usize),
        forall|k: int|
            0 <= k < eg.len() && (#[trigger] eg[k].members@.len()) >= 2 ==> is_hashed_decodable(
                hashed,
                rep_path(files, eg[k]),
            ),
        forall|k: int|
            0 <= k < eg.len() && (#[trigger] eg[k].members@.len()) >= 2 && is_hashed_decodable(
                hashed,
                rep_path(files, eg[k]),
            ) ==> exists|gi: int| 0 <= gi < out.len() && group_in_output(files, eg[k], out, gi),
    ensures
        exists|gi: int|
            0 <= gi < out.len() && info_seq_has_path(
                (#[trigger] out[gi]).images@,
                files[i as int].path@,
            ) && info_seq_has_path(out[gi].images@, files[j as int].path@),
{
    assert(exists|k: int|
        0 <= k < eg.len() && eg[k].members@.contains(i) && eg[k].members@.contains(j));
    let k = choose|k: int|
        0 <= k < eg.len() && eg[k].members@.contains(i) && eg[k].members@.contains(j);
    assert(eg[k].members@.contains(i));
    assert(eg[k].members@.contains(j));
    let pi = choose|p: int| 0 <= p < eg[k].members@.len() && eg[k].members@[p] == i;
    let pj = choose|p: int| 0 <= p < eg[k].members@.len() && eg[k].members@[p] == j;
    assert(pi != pj);
    assert(eg[k].members@.len() >= 2);
    let gi = choose|gi: int| 0 <= gi < out.len() && group_in_output(files, eg[k], out, gi);
    assert(info_seq_has_path(out[gi].images@, files[(eg[k].members@[pi]) as int].path@));
    assert(info_seq_has_path(out[gi].images@, files[(eg[k].members@[pj]) as int].path@));
}

/// Whether fingerprinted items `j1` and `j2` both decode and lie
/// within `threshold` Hamming distance of each other.
pub open spec fn fingerprints_within(
    hashed: Seq<ImageWithHash>,
    threshold: u32,
    j1: int,
    j2: int,
) -> bool {
    &&& 0 <= j1 < hashed.len()
    &&& 0 <= j2 < hashed.len()
    &&& spec_bits_of(hashed[j1].hash@) is Some
    &&& spec_bits_of(hashed[j2].hash@) is Some
    &&& hamming_distance(
        spec_bits_of(hashed[j1].hash@)->Some_0,
        spec_bits_of(hashed[j2].hash@)->Some_0,
    ) <= threshold
}

/// Closeness of fingerprints does not depend on the order of the two
/// items.
pub proof fn lemma_fingerprints_within_symmetric(
    hashed: Seq<ImageWithHash>,
    threshold: u32,
    j1: int,
    j2: int,
)
    ensures
        fingerprints_within(hashed, threshold, j1, j2) == fingerprints_within(
            hashed,
            threshold,
            j2,
            j1,
        ),
{
    if 0 <= j1 < hashed.len() && 0 <= j2 < hashed.len() && spec_bits_of(hashed[j1].hash@) is Some
        && spec_bits_of(hashed[j2].hash@) is Some {
        lemma_hamming_distance_symmetric(
            spec_bits_of(hashed[j1].hash@)->Some_0,
            spec_bits_of(hashed[j2].hash@)->Some_0,
        );
    }
}

/// Whether `j1` and `j2` are two distinct decodable items within
/// `threshold` of each other such that no third decodable item lies
/// within `threshold` of either: the pair's similarity neighborhood
/// is the pair itself.
pub open spec fn isolated_pair(
    hashed: Seq<ImageWithHash>,
    threshold: u32,
    j1: int,
    j2: int,
) -> bool {
    &&& fingerprints_within(hashed, threshold, j1, j2)
    &&& j1 != j2
    &&& forall|j3: int|
        #![trigger fingerprints_within(hashed, threshold, j1, j3)]
        #![trigger fingerprints_within(hashed, threshold, j2, j3)]
        0 <= j3 < hashed.len() && j3 != j1 && j3 != j2 ==> !fingerprints_within(
            hashed,
            threshold,
            j1,
            j3,
        ) && !fingerprints_within(hashed, threshold, j2, j3)
}

/// Whether some record of some output group carries path `p`.
pub open spec fn path_in_output(out: Seq<DuplicateGroup>, p: Seq<char>) -> bool {
    exists|gi: int| 0 <= gi < out.len() && info_seq_has_path((#[trigger] out[gi]).images@, p)
}

/// Whether some single output group carries both path `p1` and path
/// `p2`.
pub open spec fn same_output_group(out: Seq<DuplicateGroup>, p1: Seq<char>, p2: Seq<char>) -> bool {
    exists|gi: int|
        0 <= gi < out.len() && info_seq_has_path((#[trigger] out[gi]).images@, p1)
            && info_seq_has_path(out[gi].images@, p2)
}

/// Whether path `p` may stand in a group founded around item `f`: it
/// is the path of a decodable item within `threshold` of `f`, or a
/// member path of an exact group whose representative is such an
/// item.
pub open spec fn near_founder(
    files: Seq<FileMeta>,
    eg: Seq<ExactGroup>,
    hashed: Seq<ImageWithHash>,
    threshold: u32,
    f: int,
    p: Seq<char>,
) -> bool {
    ||| exists|j: int|
        0 <= j < hashed.len() && (#[trigger] hashed[j].info.path@) == p && fingerprints_within(
            hashed,
            threshold,
            f,
            j,
        )
    ||| exists|k: int, j: int|
        0 <= k < eg.len() && group_contains_path(files, #[trigger] eg[k], p) && 0 <= j
            < hashed.len() && (#[trigger] hashed[j].info.path@) == rep_path(files, eg[k])
            && fingerprints_within(hashed, threshold, f, j)
}

/// Whether every record in `infos` is near founder `f`.
spec fn all_near_founder(
    files: Seq<FileMeta>,
    eg: Seq<ExactGroup>,
    hashed: Seq<ImageWithHash>,
    threshold: u32,
    f: int,
    infos: Seq<ImageInfo>,
) -> bool {
    forall|i: int|
        0 <= i < infos.len() ==> near_founder(
            files,
            eg,
            hashed,
            threshold,
            f,
            (#[trigger] infos[i]).path@,
        )
}

/// Whether group `g` is built around a founding item: a decodable
/// item that every member of the group is near.
pub open spec fn group_founded(
    files: Seq<FileMeta>,
    eg: Seq<ExactGroup>,
    hashed: Seq<ImageWithHash>,
    threshold: u32,
    g: DuplicateGroup,
) -> bool {
    exists|f: int|
        0 <= f < hashed.len() && (#[trigger] spec_bits_of(hashed[f].hash@)) is Some && forall|
            i: int,
        |
            0 <= i < g.images@.len() ==> near_founder(
                files,
                eg,
                hashed,
                threshold,
                f,
                (#[trigger] g.images@[i]).path@,
            )
}

/// Every item already claimed, when its path is in no output group,
/// had every decodable item within `threshold` of it claimed too and
/// placed in an output group.
spec fn neighbors_settled(
    hashed: Seq<ImageWithHash>,
    threshold: u32,
    out: Seq<DuplicateGroup>,
    visited: Seq<bool>,
) -> bool {
    forall|j: int, j2: int|
        0 <= j < hashed.len() && visited[j] && !path_in_output(out, hashed[j].info.path@) && j2 != j
            && #[trigger] fingerprints_within(hashed, threshold, j, j2) ==> visited[j2]
            && path_in_output(out, hashed[j2].info.path@)
}

/// Every isolated pair is still untouched or already lies whole in
/// one output group.
spec fn pairs_settled(
    hashed: Seq<ImageWithHash>,
    threshold: u32,
    out: Seq<DuplicateGroup>,
    visited: Seq<bool>,
) -> bool {
    forall|j1: int, j2: int|
        #[trigger] isolated_pair(hashed, threshold, j1, j2) ==> (!visited[j1] && !visited[j2])
            || same_output_group(out, hashed[j1].info.path@, hashed[j2].info.path@)
}

/// Growing the output never unseats a path already placed.
proof fn lemma_path_in_output_extend(out1: Seq<DuplicateGroup>, out2: Seq<DuplicateGroup>, p: Seq<char>)
    requires
        out1.len() <= out2.len(),
        forall|g: int| 0 <= g < out1.len() ==> out2[g] == out1[g],
        path_in_output(out1, p),
    ensures
        path_in_output(out2, p),
{
    let gi = choose|gi: int| 0 <= gi < out1.len() && info_seq_has_path((#[trigger] out1[gi]).images@, p);
    assert(info_seq_has_path(out2[gi].images@, p));
}

/// A visually similar file joins the byte-identical files' group.
/// When a fingerprinted item and the representative of an exact group
/// lie within the threshold of each other and no third decodable item
/// lies within the threshold of either, one single output group holds
/// the item's path, the representative's path and the path of every
/// member of the exact group.  The three quantified hypotheses are
/// what `extract_groups` ensures.
pub proof fn lemma_similar_pair_groups_whole(
    files: Seq<FileMeta>,
    eg: Seq<ExactGroup>,
    hashed: Seq<ImageWithHash>,
    out: Seq<DuplicateGroup>,
    threshold: u32,
    k: int,
    ja: int,
    jb: int,
)
    requires
        out_groups_distinct(out),
        forall|k2: int|
            0 <= k2 < eg.len() && (#[trigger] eg[k2].members@.len()) >= 2 && is_hashed_decodable(
                hashed,
                rep_path(files, eg[k2]),
            ) ==> exists|gi: int| 0 <= gi < out.len() && group_in_output(files, eg[k2], out, gi),
        forall|j1: int, j2: int|
            #[trigger] isolated_pair(hashed, threshold, j1, j2) ==> same_output_group(
                out,
                hashed[j1].info.path@,
                hashed[j2].info.path@,
            ),
        isolated_pair(hashed, threshold, ja, jb),
        0 <= k < eg.len(),
        eg[k].members@.len() >= 2,
        (eg[k].members@[0] as int) < files.len(),
        rep_path(files, eg[k]) == hashed[ja].info.path@,
        is_hashed_decodable(hashed, rep_path(files, eg[k])),
    ensures
        exists|gi: int|
            0 <= gi < out.len() && info_seq_has_path(
                (#[trigger] out[gi]).images@,
                hashed[ja].info.path@,
            ) && info_seq_has_path(out[gi].images@, hashed[jb].info.path@) && group_in_output(
                files,
                eg[k],
                out,
                gi,
            ),
{
    assert(same_output_group(out, hashed[ja].info.path@, hashed[jb].info.path@));
    let gi1 = choose|gi: int|
        0 <= gi < out.len() && info_seq_has_path((#[trigger] out[gi]).images@, hashed[ja].info.path@)
            && info_seq_has_path(out[gi].images@, hashed[jb].info.path@);
    let gi2 = choose|gi: int| 0 <= gi < out.len() && group_in_output(files, eg[k], out, gi);
    assert(info_seq_has_path(out[gi2].images@, files[eg[k].members@[0] as int].path@));
    assert(info_seq_has_path(out[gi2].images@, hashed[ja].info.path@));
    if gi1 != gi2 {
        let i1 = choose|i: int|
            0 <= i < out[gi1].images@.len() && (#[trigger] out[gi1].images@[i]).path@
                == hashed[ja].info.path@;
        let i2 = choose|i: int|
            0 <= i < out[gi2].images@.len() && (#[trigger] out[gi2].images@[i]).path@
                == hashed[ja].info.path@;
        assert(out[gi1].images@[i1].path@ != out[gi2].images@[i2].path@);
        assert(false);
    }
    assert(0 <= gi1 < out.len() && info_seq_has_path(out[gi1].images@, hashed[ja].info.path@)
        && info_seq_has_path(out[gi1].images@, hashed[jb].info.path@) && group_in_output(
        files,
        eg[k],
        out,
        gi1,
    ));
}

/// An unrelated file joins no group.  A fingerprinted item with no
/// other decodable item within the threshold of it, whose path no
/// exact group holds and no other fingerprinted item carries, appears
/// in no output group: any group holding it would need the item
/// itself as founder and a second member near it, and there is none.
/// The quantified hypotheses on the output are what `extract_groups`
/// ensures.
pub proof fn lemma_unrelated_file_ungrouped(
    files: Seq<FileMeta>,
    eg: Seq<ExactGroup>,
    hashed: Seq<ImageWithHash>,
    out: Seq<DuplicateGroup>,
    threshold: u32,
    jc: int,
)
    requires
        forall|g: int|
            0 <= g < out.len() ==> group_founded(files, eg, hashed, threshold, #[trigger] out[g]),
        forall|g: int| 0 <= g < out.len() ==> (#[trigger] out[g].images@.len()) >= 2,
        out_groups_distinct(out),
        forall|k: int| 0 <= k < eg.len() ==> (#[trigger] eg[k].members@.len()) >= 1,
        0 <= jc < hashed.len(),
        forall|j: int|
            #![trigger fingerprints_within(hashed, threshold, j, jc)]
            #![trigger fingerprints_within(hashed, threshold, jc, j)]
            0 <= j < hashed.len() && j != jc ==> !fingerprints_within(hashed, threshold, j, jc)
                && !fingerprints_within(hashed, threshold, jc, j),
        forall|j: int|
            0 <= j < hashed.len() && (#[trigger] hashed[j].info.path@) == hashed[jc].info.path@
                ==> j == jc,
        forall|k: int|
            0 <= k < eg.len() ==> !group_contains_path(
                files,
                #[trigger] eg[k],
                hashed[jc].info.path@,
            ),
    ensures
        !path_in_output(out, hashed[jc].info.path@),
{
    let pc = hashed[jc].info.path@;
    if path_in_output(out, pc) {
        let g = choose|g: int| 0 <= g < out.len() && info_seq_has_path((#[trigger] out[g]).images@, pc);
        let i = choose|i: int|
            0 <= i < out[g].images@.len() && (#[trigger] out[g].images@[i]).path@ == pc;
        assert(group_founded(files, eg, hashed, threshold, out[g]));
        let f = choose|f: int|
            0 <= f < hashed.len() && (#[trigger] spec_bits_of(hashed[f].hash@)) is Some && forall|
                i2: int,
            |
                0 <= i2 < out[g].images@.len() ==> near_founder(
                    files,
                    eg,
                    hashed,
                    threshold,
                    f,
                    (#[trigger] out[g].images@[i2]).path@,
                );
        assert(near_founder(files, eg, hashed, threshold, f, pc));
        // The founder can only be the unrelated item itself.
        if exists|j: int|
            0 <= j < hashed.len() && (#[trigger] hashed[j].info.path@) == pc && fingerprints_within(
                hashed,
                threshold,
                f,
                j,
            ) {
            let j = choose|j: int|
                0 <= j < hashed.len() && (#[trigger] hashed[j].info.path@) == pc
                    && fingerprints_within(hashed, threshold, f, j);
            assert(j == jc);
            assert(f == jc);
        } else {
            let (k, j) = choose|k: int, j: int|
                0 <= k < eg.len() && group_contains_path(files, #[trigger] eg[k], pc) && 0 <= j
                    < hashed.len() && (#[trigger] hashed[j].info.path@) == rep_path(files, eg[k])
                    && fingerprints_within(hashed, threshold, f, j);
            assert(false);
        }
        // A second member must also be near the founder, and nothing is.
        let i2 = if i == 0 {
            1int
        } else {
            0int
        };
        assert(0 <= i2 < out[g].images@.len());
        let p2 = out[g].images@[i2].path@;
        assert(p2 != pc);
        assert(near_founder(files, eg, hashed, threshold, jc, p2));
        if exists|j: int|
            0 <= j < hashed.len() && (#[trigger] hashed[j].info.path@) == p2 && fingerprints_within(
                hashed,
                threshold,
                jc,
                j,
            ) {
            let j = choose|j: int|
                0 <= j < hashed.len() && (#[trigger] hashed[j].info.path@) == p2
                    && fingerprints_within(hashed, threshold, jc, j);
            assert(j == jc);
            assert(false);
        } else {
            let (k, j) = choose|k: int, j: int|
                0 <= k < eg.len() && group_contains_path(files, #[trigger] eg[k], p2) && 0 <= j
                    < hashed.len() && (#[trigger] hashed[j].info.path@) == rep_path(files, eg[k])
                    && fingerprints_within(hashed, threshold, jc, j);
            assert(j == jc);
            assert(rep_path(files, eg[k]) == pc);
            assert(files[eg[k].members@[0] as int].path@ == pc);
            assert(group_contains_path(files, eg[k], pc));
            assert(false);
        }
    }
}

fn file_info(f: &FileMeta) -> (r: ImageInfo)
    ensures
        r.path@ == f.path@,
        r.filename@ == f.filename@,
        r.size_bytes == (match f.size {
            Some(s) => s,
            None => 0u64,
        }),
{
    ImageInfo {
        path: f.path.clone(),
        filename: f.filename.clone(),
        size_bytes: match f.size {
            Some(s) => s,
            None => 0,
        },
    }
}

/// Extracts the final duplicate groups.  Items are visited in input
/// order; each unclaimed, decodable item queries the similarity index
/// at the given threshold and claims every still-unclaimed owner of a
/// returned fingerprint; each claimed item that represents an exact
/// group pulls that group's other members into the same output group.
/// A group is emitted only when it has at least two members, no path
/// ever appears in two output groups, and every emitted path belongs
/// to a fingerprinted item or to an exact-group member.
#[verifier::loop_isolation(false)]
#[verifier::rlimit(100)]
pub fn extract_groups(
    files: &Vec<FileMeta>,
    hashed: &Vec<ImageWithHash>,
    exact_groups: &Vec<ExactGroup>,
    threshold: u32,
) -> (out: Vec<DuplicateGroup>)
    requires
        distinct_file_paths(files@),
        distinct_hashed_paths(hashed@),
        exact_groups_wf(files@, exact_groups@),
        non_reps_not_hashed(files@, exact_groups@, hashed@),
    ensures
        forall|g: int| 0 <= g < out@.len() ==> (#[trigger] out@[g].images@.len()) >= 2,
        out_groups_distinct(out@),
        forall|g: int, i: int|
            0 <= g < out@.len() && 0 <= i < out@[g].images@.len() ==> is_hashed_path(
                hashed@,
                (#[trigger] out@[g].images@[i]).path@,
            ) || is_exact_member_path(files@, exact_groups@, out@[g].images@[i].path@),
        forall|k: int|
            0 <= k < exact_groups@.len() && (#[trigger] exact_groups@[k].members@.len()) >= 2
                && is_hashed_decodable(hashed@, rep_path(files@, exact_groups@[k])) ==> exists|
                gi: int,
            | 0 <= gi < out@.len() && group_in_output(files@, exact_groups@[k], out@, gi),
        forall|g: int|
            0 <= g < out@.len() ==> group_founded(
                files@,
                exact_groups@,
                hashed@,
                threshold,
                #[trigger] out@[g],
            ),
        forall|j1: int, j2: int|
            j1 != j2 && #[trigger] fingerprints_within(hashed@, threshold, j1, j2)
                ==> path_in_output(out@, hashed@[j1].info.path@) || path_in_output(
                out@,
                hashed@[j2].info.path@,
            ),
        forall|j1: int, j2: int|
            #[trigger] isolated_pair(hashed@, threshold, j1, j2) ==> same_output_group(
                out@,
                hashed@[j1].info.path@,
                hashed@[j2].info.path@,
            ),
{
    let m = hashed.len();
    let eg_count = exact_groups.len();

    // Decode each item's fingerprint; an undecodable one keeps its item
    // out of the index and out of every group.
    let mut bits: Vec<Option<u64>> = Vec::new();
    let mut d: usize = 0;
    while d < m
        invariant
            d <= m,
            bits@.len() == d,
            forall|j: int| 0 <= j < d ==> (#[trigger] bits@[j]) == spec_bits_of(hashed@[j].hash@),
        decreases m - d,
    {
        let decoded = match decode_fingerprint(hashed[d].hash.as_str()) {
            Some(fp) => Some(fp.bits),
            None => None,
        };
        bits.push(decoded);
        d = d + 1;
    }

    let mut index = SimilarityIndex::new(PerceptualMetric);
    let mut b: usize = 0;
    while b < m
        invariant
            b <= m,
            forall|j: int|
                0 <= j < b && (#[trigger] bits@[j]) is Some ==> exists|k0: int|
                    0 <= k0 < index@.len() && index@[k0] == bits@[j]->Some_0,
        decreases m - b,
    {
        let ghost index_before = index@;
        match bits[b] {
            Some(v) => {
                index.add(&ComparableHash(PerceptualFingerprint { bits: v }));
            },
            None => {},
        }
        proof {
            assert forall|j: int| 0 <= j < b + 1 && (#[trigger] bits@[j]) is Some implies exists|
                k0: int,
            | 0 <= k0 < index@.len() && index@[k0] == bits@[j]->Some_0 by {
                if j == b as int {
                    assert(index@[index@.len() - 1] == bits@[j]->Some_0);
                } else {
                    let k0 = choose|k0: int|
                        0 <= k0 < index_before.len() && index_before[k0] == bits@[j]->Some_0;
                    assert(index@[k0] == bits@[j]->Some_0);
                }
            }
        }
        b = b + 1;
    }

    let mut visited: Vec<bool> = Vec::new();
    let mut v0: usize = 0;
    while v0 < m
        invariant
            v0 <= m,
            visited@.len() == v0,
            forall|q: int| 0 <= q < v0 ==> !(#[trigger] visited@[q]),
        decreases m - v0,
    {
        visited.push(false);
        v0 = v0 + 1;
    }
    let mut group_used: Vec<bool> = Vec::new();
    let mut u0: usize = 0;
    while u0 < eg_count
        invariant
            u0 <= eg_count,
            group_used@.len() == u0,
            forall|q: int| 0 <= q < u0 ==> !(#[trigger] group_used@[q]),
        decreases eg_count - u0,
    {
        group_used.push(false);
        u0 = u0 + 1;
    }

    let mut out: Vec<DuplicateGroup> = Vec::new();
    let mut a: usize = 0;
    while a < m
        invariant
            visited@.len() == m,
            group_used@.len() == eg_count,
            forall|g: int| 0 <= g < out@.len() ==> (#[trigger] out@[g].images@.len()) >= 2,
            out_groups_distinct(out@),
            out_sourced(files@, exact_groups@, hashed@, visited@, group_used@, out@),
            forall|j: int| 0 <= j < a && (#[trigger] bits@[j]) is Some ==> visited@[j],
            claims_propagated_except(files@, exact_groups@, hashed@, visited@, group_used@, -1),
            used_groups_covered(
                files@,
                exact_groups@,
                group_used@,
                out@,
                Seq::<ImageInfo>::empty(),
                -1,
            ),
            forall|g: int|
                0 <= g < out@.len() ==> group_founded(
                    files@,
                    exact_groups@,
                    hashed@,
                    threshold,
                    #[trigger] out@[g],
                ),
            neighbors_settled(hashed@, threshold, out@, visited@),
            pairs_settled(hashed@, threshold, out@, visited@),
        decreases m - a,
    {
        let start_group = !visited[a] && bits[a].is_some();
        if start_group {
            let ghost visited_start = visited@;
            let ghost out_start = out@;
            let center_bits: u64 = match bits[a] {
                Some(v) => v,
                None => 0,
            };
            proof {
                assert(bits@[a as int] == Some(center_bits));
                assert(!visited_start[a as int]);
                assert(neighbors_settled(hashed@, threshold, out_start, visited_start));
                assert(pairs_settled(hashed@, threshold, out_start, visited_start));
            }
            let center = ComparableHash(PerceptualFingerprint { bits: center_bits });
            let matches = index.find(&center, threshold);
            let mut members: Vec<ImageInfo> = Vec::new();
            let mut mi: usize = 0;
            while mi < matches.len()
                invariant
                    mi <= matches@.len(),
                    visited@.len() == m,
                    group_used@.len() == eg_count,
                    out_sourced(files@, exact_groups@, hashed@, visited@, group_used@, out@),
                    infos_sourced(
                        files@,
                        exact_groups@,
                        hashed@,
                        visited@,
                        group_used@,
                        members@,
                    ),
                    infos_distinct(members@),
                    infos_disjoint_from_out(out@, members@),
                    forall|j: int| 0 <= j < a && (#[trigger] bits@[j]) is Some ==> visited@[j],
                    forall|mi2: int, j: int|
                        #![trigger matches@[mi2], bits@[j]]
                        0 <= mi2 < mi && 0 <= j < m && bits@[j] == Some(matches@[mi2].1)
                            ==> visited@[j],
                    claims_propagated_except(
                        files@,
                        exact_groups@,
                        hashed@,
                        visited@,
                        group_used@,
                        -1,
                    ),
                    used_groups_covered(
                        files@,
                        exact_groups@,
                        group_used@,
                        out@,
                        members@,
                        -1,
                    ),
                    forall|j: int|
                        #![trigger visited_start[j]]
                        0 <= j < m && visited_start[j] ==> visited@[j],
                    forall|j: int|
                        #![trigger visited@[j]]
                        0 <= j < m && visited@[j] && !visited_start[j] ==> bits@[j] is Some
                            && hamming_distance(center_bits, bits@[j]->Some_0) <= threshold,
                    forall|j: int|
                        #![trigger visited@[j]]
                        0 <= j < m && visited@[j] && !visited_start[j] ==> info_seq_has_path(
                            members@,
                            hashed@[j].info.path@,
                        ),
                    all_near_founder(
                        files@,
                        exact_groups@,
                        hashed@,
                        threshold,
                        a as int,
                        members@,
                    ),
                decreases matches@.len() - mi,
            {
                let matched_bits: u64 = matches[mi].1;
                let mut jj: usize = 0;
                while jj < m
                    invariant
                        jj <= m,
                        visited@.len() == m,
                        group_used@.len() == eg_count,
                        out_sourced(files@, exact_groups@, hashed@, visited@, group_used@, out@),
                        infos_sourced(
                            files@,
                            exact_groups@,
                            hashed@,
                            visited@,
                            group_used@,
                            members@,
                        ),
                        infos_distinct(members@),
                        infos_disjoint_from_out(out@, members@),
                        forall|j: int| 0 <= j < a && (#[trigger] bits@[j]) is Some ==> visited@[j],
                        forall|mi2: int, j: int|
                            #![trigger matches@[mi2], bits@[j]]
                            0 <= mi2 < mi && 0 <= j < m && bits@[j] == Some(matches@[mi2].1)
                                ==> visited@[j],
                        forall|j: int|
                            0 <= j < jj && (#[trigger] bits@[j]) == Some(matched_bits)
                                ==> visited@[j],
                        claims_propagated_except(
                            files@,
                            exact_groups@,
                            hashed@,
                            visited@,
                            group_used@,
                            -1,
                        ),
                        used_groups_covered(
                            files@,
                            exact_groups@,
                            group_used@,
                            out@,
                            members@,
                            -1,
                        ),
                        forall|j: int|
                            #![trigger visited_start[j]]
                            0 <= j < m && visited_start[j] ==> visited@[j],
                        forall|j: int|
                            #![trigger visited@[j]]
                            0 <= j < m && visited@[j] && !visited_start[j] ==> bits@[j] is Some
                                && hamming_distance(center_bits, bits@[j]->Some_0) <= threshold,
                        forall|j: int|
                            #![trigger visited@[j]]
                            0 <= j < m && visited@[j] && !visited_start[j] ==> info_seq_has_path(
                                members@,
                                hashed@[j].info.path@,
                            ),
                        all_near_founder(
                            files@,
                            exact_groups@,
                            hashed@,
                            threshold,
                            a as int,
                            members@,
                        ),
                    decreases m - jj,
                {
                    let owns = match bits[jj] {
                        Some(v) => v == matched_bits,
                        None => false,
                    };
                    if owns && !visited[jj] {
                        // Claim item jj for this group.
                        let ghost visited_before = visited@;
                        visited.set(jj, true);
                        proof {
                            lemma_hashed_path_fresh(
                                files@,
                                exact_groups@,
                                hashed@,
                                visited_before,
                                group_used@,
                                jj as int,
                            );
                            lemma_sources_monotone(
                                files@,
                                exact_groups@,
                                hashed@,
                                visited_before,
                                visited@,
                                group_used@,
                                group_used@,
                            );
                            // The claimed item's fingerprint was matched, so
                            // it lies within the threshold of the founder's.
                            lemma_query_matches_sound(index@, center_bits, threshold);
                            assert(matches@[mi as int].0 == hamming_distance(
                                center_bits,
                                matches@[mi as int].1,
                            ) && matches@[mi as int].0 <= threshold);
                            assert(bits@[jj as int] == Some(matched_bits));
                            assert(!visited_start[jj as int]);
                            assert forall|j: int|
                                #![trigger visited@[j]]
                                0 <= j < m && visited@[j] && !visited_start[j] implies bits@[j] is Some
                                && hamming_distance(center_bits, bits@[j]->Some_0) <= threshold by {
                                if j != jj as int {
                                    assert(visited_before[j]);
                                }
                            }
                        }
                        let claimed_info = hashed[jj].info.duplicate();
                        let ghost members_preclaim = members@;
                        members.push(claimed_info);
                        proof {
                            assert(claimed_path(hashed@, visited@, hashed@[jj as int].info.path@));
                            assert(members@.last().path@ == hashed@[jj as int].info.path@);
                            // Every item claimed in this round, now including
                            // the one just claimed, has its record among the
                            // group members under construction.
                            assert forall|j: int|
                                #![trigger visited@[j]]
                                0 <= j < m && visited@[j] && !visited_start[j] implies
                                info_seq_has_path(members@, hashed@[j].info.path@) by {
                                if j == jj as int {
                                    assert((members@[members@.len() - 1]).path@ == hashed@[j].info.path@);
                                } else {
                                    assert(visited_before[j]);
                                    lemma_has_path_extend(
                                        members_preclaim,
                                        members@,
                                        hashed@[j].info.path@,
                                    );
                                }
                            }
                            // The claimed item is near the founder, so the
                            // members stay near the founder.
                            assert(fingerprints_within(hashed@, threshold, a as int, jj as int)) by {
                                assert(bits@[a as int] == spec_bits_of(hashed@[a as int].hash@));
                                assert(bits@[jj as int] == spec_bits_of(hashed@[jj as int].hash@));
                            }
                            assert forall|i: int|
                                0 <= i < members@.len() implies near_founder(
                                files@,
                                exact_groups@,
                                hashed@,
                                threshold,
                                a as int,
                                (#[trigger] members@[i]).path@,
                            ) by {
                                if i == members@.len() - 1 {
                                    assert((hashed@[jj as int].info.path@) == members@[i].path@);
                                } else {
                                    assert(members@[i] == members_preclaim[i]);
                                    assert(near_founder(
                                        files@,
                                        exact_groups@,
                                        hashed@,
                                        threshold,
                                        a as int,
                                        members_preclaim[i].path@,
                                    ));
                                }
                            }
                            assert forall|x: int, y: int| 0 <= x < y < members@.len() implies (
                                #[trigger] members@[x].path@) != (#[trigger] members@[y].path@) by {
                                if y == members@.len() - 1 {
                                    assert(path_sourced(
                                        files@,
                                        exact_groups@,
                                        hashed@,
                                        visited_before,
                                        group_used@,
                                        members@[x].path@,
                                    ));
                                }
                            }
                            assert forall|g: int, i1: int, i2: int|
                                0 <= g < out@.len() && 0 <= i1 < out@[g].images@.len() && 0 <= i2
                                    < members@.len() implies (
                                #[trigger] out@[g].images@[i1].path@) != (
                            #[trigger] members@[i2].path@) by {
                                if i2 == members@.len() - 1 {
                                    assert(path_sourced(
                                        files@,
                                        exact_groups@,
                                        hashed@,
                                        visited_before,
                                        group_used@,
                                        out@[g].images@[i1].path@,
                                    ));
                                }
                            }
                            assert(info_seq_has_path(members@, hashed@[jj as int].info.path@));
                            assert(claims_propagated_except(
                                files@,
                                exact_groups@,
                                hashed@,
                                visited@,
                                group_used@,
                                jj as int,
                            )) by {
                                assert forall|j2: int, k2: int|
                                    #![trigger group_contains_path(files@, exact_groups@[k2], hashed@[j2].info.path@)]
                                    0 <= j2 < hashed@.len() && visited@[j2] && j2 != jj as int && 0
                                        <= k2 < exact_groups@.len() && group_contains_path(
                                        files@,
                                        exact_groups@[k2],
                                        hashed@[j2].info.path@,
                                    ) implies group_used@[k2] by {
                                    assert(visited_before[j2]);
                                }
                            }
                            assert forall|k2: int|
                                0 <= k2 < exact_groups@.len() && group_used@[k2] && (
                            #[trigger] exact_groups@[k2].members@.len()) >= 2 implies (exists|
                                gi: int,
                            |
                                0 <= gi < out@.len() && group_in_output(
                                    files@,
                                    exact_groups@[k2],
                                    out@,
                                    gi,
                                )) || group_in_infos(files@, exact_groups@[k2], members@) by {
                                if group_in_infos(files@, exact_groups@[k2], members_preclaim) {
                                    lemma_group_in_infos_extend(
                                        files@,
                                        exact_groups@[k2],
                                        members_preclaim,
                                        members@,
                                    );
                                }
                            }
                        }
                        // Pull in the exact siblings of the claimed item.
                        let mut k: usize = 0;
                        while k < eg_count
                            invariant
                                k <= eg_count,
                                visited@.len() == m,
                                group_used@.len() == eg_count,
                                visited@[jj as int],
                                out_sourced(
                                    files@,
                                    exact_groups@,
                                    hashed@,
                                    visited@,
                                    group_used@,
                                    out@,
                                ),
                                infos_sourced(
                                    files@,
                                    exact_groups@,
                                    hashed@,
                                    visited@,
                                    group_used@,
                                    members@,
                                ),
                                infos_distinct(members@),
                                infos_disjoint_from_out(out@, members@),
                                claims_propagated_except(
                                    files@,
                                    exact_groups@,
                                    hashed@,
                                    visited@,
                                    group_used@,
                                    jj as int,
                                ),
                                forall|k2: int|
                                    0 <= k2 < k && group_contains_path(
                                        files@,
                                        #[trigger] exact_groups@[k2],
                                        hashed@[jj as int].info.path@,
                                    ) ==> group_used@[k2],
                                info_seq_has_path(members@, hashed@[jj as int].info.path@),
                                used_groups_covered(
                                    files@,
                                    exact_groups@,
                                    group_used@,
                                    out@,
                                    members@,
                                    -1,
                                ),
                                forall|j: int|
                                    #![trigger visited@[j]]
                                    0 <= j < m && visited@[j] && !visited_start[j]
                                        ==> info_seq_has_path(members@, hashed@[j].info.path@),
                                all_near_founder(
                                    files@,
                                    exact_groups@,
                                    hashed@,
                                    threshold,
                                    a as int,
                                    members@,
                                ),
                            decreases eg_count - k,
                        {
                            let g_ref = &exact_groups[k];
                            let member_count = g_ref.members.len();
                            let mut pos: usize = 0;
                            let mut contains = false;
                            while pos < member_count
                                invariant
                                    pos <= member_count,
                                    member_count == g_ref.members@.len(),
                                    g_ref == exact_groups@[k as int],
                                    k < eg_count,
                                    contains == exists|q: int|
                                        0 <= q < pos && files@[#[trigger] g_ref.members@[q] as int].path@
                                            == hashed@[jj as int].info.path@,
                                decreases member_count - pos,
                            {
                                let idx = g_ref.members[pos];
                                if str_eq(
                                    files[idx].path.as_str(),
                                    hashed[jj].info.path.as_str(),
                                ) {
                                    contains = true;
                                }
                                pos = pos + 1;
                            }
                            if contains && !group_used[k] {
                                proof {
                                    // The claimed path can only be the
                                    // representative: other members are
                                    // not fingerprinted.
                                    let q = choose|q: int|
                                        0 <= q < member_count && files@[#[trigger] g_ref.members@[q] as int].path@
                                            == hashed@[jj as int].info.path@;
                                    if q >= 1 {
                                        assert(is_hashed_path(
                                            hashed@,
                                            files@[g_ref.members@[q] as int].path@,
                                        ));
                                        assert(false);
                                    }
                                    assert(rep_path(files@, exact_groups@[k as int]) == hashed@[jj as int].info.path@);
                                }
                                let ghost used_before = group_used@;
                                group_used.set(k, true);
                                proof {
                                    lemma_sources_monotone(
                                        files@,
                                        exact_groups@,
                                        hashed@,
                                        visited@,
                                        visited@,
                                        used_before,
                                        group_used@,
                                    );
                                    lemma_claims_propagated_monotone(
                                        files@,
                                        exact_groups@,
                                        hashed@,
                                        visited@,
                                        used_before,
                                        group_used@,
                                        jj as int,
                                    );
                                    assert(used_groups_covered(
                                        files@,
                                        exact_groups@,
                                        group_used@,
                                        out@,
                                        members@,
                                        k as int,
                                    )) by {
                                        assert forall|k2: int|
                                            0 <= k2 < exact_groups@.len() && group_used@[k2] && (
                                        #[trigger] exact_groups@[k2].members@.len()) >= 2 && k2
                                            != k as int implies (exists|gi: int|
                                            0 <= gi < out@.len() && group_in_output(
                                                files@,
                                                exact_groups@[k2],
                                                out@,
                                                gi,
                                            )) || group_in_infos(
                                            files@,
                                            exact_groups@[k2],
                                            members@,
                                        ) by {
                                            assert(used_before[k2]);
                                        }
                                    }
                                }
                                let ghost members_snap = members@;
                                let mut pos2: usize = 0;
                                while pos2 < member_count
                                    invariant
                                        pos2 <= member_count,
                                        member_count == g_ref.members@.len(),
                                        g_ref == exact_groups@[k as int],
                                        k < eg_count,
                                        visited@.len() == m,
                                        group_used@.len() == eg_count,
                                        group_used@[k as int],
                                        rep_path(files@, exact_groups@[k as int]) == hashed@[jj as int].info.path@,
                                        members@.len() >= members_snap.len(),
                                        members@.subrange(0, members_snap.len() as int)
                                            == members_snap,
                                        infos_sourced(
                                            files@,
                                            exact_groups@,
                                            hashed@,
                                            visited@,
                                            used_before,
                                            members_snap,
                                        ),
                                        out_sourced(
                                            files@,
                                            exact_groups@,
                                            hashed@,
                                            visited@,
                                            used_before,
                                            out@,
                                        ),
                                        forall|x: int|
                                            #![trigger members@[x]]
                                            members_snap.len() <= x < members@.len()
                                                ==> is_batch_path(
                                                files@,
                                                g_ref.members@,
                                                pos2 as int,
                                                members@[x].path@,
                                            ),
                                        infos_sourced(
                                            files@,
                                            exact_groups@,
                                            hashed@,
                                            visited@,
                                            group_used@,
                                            members@,
                                        ),
                                        infos_distinct(members@),
                                        infos_disjoint_from_out(out@, members@),
                                        info_seq_has_path(members@, hashed@[jj as int].info.path@),
                                        forall|q: int|
                                            0 <= q < pos2 ==> info_seq_has_path(
                                                members@,
                                                files@[(#[trigger] g_ref.members@[q]) as int].path@,
                                            ),
                                        used_groups_covered(
                                            files@,
                                            exact_groups@,
                                            group_used@,
                                            out@,
                                            members@,
                                            k as int,
                                        ),
                                        forall|j: int|
                                            #![trigger visited@[j]]
                                            0 <= j < m && visited@[j] && !visited_start[j]
                                                ==> info_seq_has_path(
                                                members@,
                                                hashed@[j].info.path@,
                                            ),
                                        all_near_founder(
                                            files@,
                                            exact_groups@,
                                            hashed@,
                                            threshold,
                                            a as int,
                                            members@,
                                        ),
                                    decreases member_count - pos2,
                                {
                                    let idx = g_ref.members[pos2];
                                    if !str_eq(
                                        files[idx].path.as_str(),
                                        hashed[jj].info.path.as_str(),
                                    ) {
                                        proof {
                                            // A member with a different path
                                            // than the representative's is a
                                            // non-representative.
                                            assert(pos2 != 0);
                                            lemma_sibling_path_fresh(
                                                files@,
                                                exact_groups@,
                                                hashed@,
                                                visited@,
                                                used_before,
                                                k as int,
                                                pos2 as int,
                                            );
                                        }
                                        let sibling = file_info(&files[idx]);
                                        let ghost members_before_sib = members@;
                                        members.push(sibling);
                                        proof {
                                            let p = files@[idx as int].path@;
                                            assert(sibling_of_used(
                                                files@,
                                                exact_groups@,
                                                group_used@,
                                                p,
                                            ));
                                            // The claimed items' records were
                                            // already among the members and
                                            // stay there.
                                            assert forall|j: int|
                                                #![trigger visited@[j]]
                                                0 <= j < m && visited@[j] && !visited_start[j]
                                                    implies info_seq_has_path(
                                                members@,
                                                hashed@[j].info.path@,
                                            ) by {
                                                lemma_has_path_extend(
                                                    members_before_sib,
                                                    members@,
                                                    hashed@[j].info.path@,
                                                );
                                            }
                                            // The sibling is a member of an
                                            // exact group whose representative
                                            // is the claimed item, which is
                                            // near the founder.
                                            assert(visited@[jj as int] && !visited_start[jj as int]);
                                            assert(fingerprints_within(
                                                hashed@,
                                                threshold,
                                                a as int,
                                                jj as int,
                                            )) by {
                                                assert(bits@[a as int] == spec_bits_of(
                                                    hashed@[a as int].hash@,
                                                ));
                                                assert(bits@[jj as int] == spec_bits_of(
                                                    hashed@[jj as int].hash@,
                                                ));
                                            }
                                            assert(group_contains_path(
                                                files@,
                                                exact_groups@[k as int],
                                                p,
                                            )) by {
                                                assert(files@[(exact_groups@[k as int].members@[pos2 as int]) as int].path@
                                                    == p);
                                            }
                                            assert(near_founder(
                                                files@,
                                                exact_groups@,
                                                hashed@,
                                                threshold,
                                                a as int,
                                                p,
                                            ));
                                            assert forall|i: int|
                                                0 <= i < members@.len() implies near_founder(
                                                files@,
                                                exact_groups@,
                                                hashed@,
                                                threshold,
                                                a as int,
                                                (#[trigger] members@[i]).path@,
                                            ) by {
                                                if i < members@.len() - 1 {
                                                    assert(members@[i] == members_before_sib[i]);
                                                    assert(near_founder(
                                                        files@,
                                                        exact_groups@,
                                                        hashed@,
                                                        threshold,
                                                        a as int,
                                                        members_before_sib[i].path@,
                                                    ));
                                                } else {
                                                    assert(members@[i].path@ == p);
                                                }
                                            }
                                            assert(members@.subrange(
                                                0,
                                                members_snap.len() as int,
                                            ) =~= members_snap);
                                            assert forall|x: int, y: int|
                                                0 <= x < y < members@.len() implies (
                                            #[trigger] members@[x].path@) != (
                                            #[trigger] members@[y].path@) by {
                                                if y == members@.len() - 1 {
                                                    if x < members_snap.len() {
                                                        assert(members@[x] == members_snap[x]);
                                                        assert(path_sourced(
                                                            files@,
                                                            exact_groups@,
                                                            hashed@,
                                                            visited@,
                                                            used_before,
                                                            members@[x].path@,
                                                        ));
                                                    } else {
                                                        let q2 = lemma_batch_path_pick(
                                                            files@,
                                                            g_ref.members@,
                                                            pos2 as int,
                                                            members@[x].path@,
                                                        );
                                                        if members@[x].path@ == members@[y].path@ {
                                                            lemma_file_paths_injective(
                                                                files@,
                                                                g_ref.members@[q2] as int,
                                                                idx as int,
                                                            );
                                                            assert(false);
                                                        }
                                                    }
                                                }
                                            }
                                            assert forall|g: int, i1: int, i2: int|
                                                0 <= g < out@.len() && 0 <= i1 < out@[g].images@.len() && 0 <= i2 < members@.len() implies
                                                (#[trigger] out@[g].images@[i1].path@) != (
                                            #[trigger] members@[i2].path@) by {
                                                if i2 == members@.len() - 1 {
                                                    assert(path_sourced(
                                                        files@,
                                                        exact_groups@,
                                                        hashed@,
                                                        visited@,
                                                        used_before,
                                                        out@[g].images@[i1].path@,
                                                    ));
                                                }
                                            }
                                            assert forall|x: int|
                                                #![trigger members@[x]]
                                                members_snap.len() <= x < members@.len() implies
                                                is_batch_path(
                                                files@,
                                                g_ref.members@,
                                                pos2 + 1,
                                                members@[x].path@,
                                            ) by {
                                                if x < members@.len() - 1 {
                                                    lemma_batch_path_widen(
                                                        files@,
                                                        g_ref.members@,
                                                        pos2 as int,
                                                        pos2 + 1,
                                                        members@[x].path@,
                                                    );
                                                } else {
                                                    lemma_batch_path_intro(
                                                        files@,
                                                        g_ref.members@,
                                                        pos2 + 1,
                                                        pos2 as int,
                                                    );
                                                }
                                            }
                                            lemma_has_path_extend(
                                                members_before_sib,
                                                members@,
                                                hashed@[jj as int].info.path@,
                                            );
                                            assert forall|q: int| 0 <= q < pos2 + 1 implies
                                                info_seq_has_path(
                                                members@,
                                                files@[(#[trigger] g_ref.members@[q]) as int].path@,
                                            ) by {
                                                if q < pos2 {
                                                    lemma_has_path_extend(
                                                        members_before_sib,
                                                        members@,
                                                        files@[g_ref.members@[q] as int].path@,
                                                    );
                                                } else {
                                                    assert((members@[members@.len() - 1]).path@
                                                        == files@[g_ref.members@[q] as int].path@);
                                                }
                                            }
                                            assert forall|k2: int|
                                                0 <= k2 < exact_groups@.len() && group_used@[k2]
                                                    && (
                                            #[trigger] exact_groups@[k2].members@.len()) >= 2 && k2
                                                != k as int implies (exists|gi: int|
                                                0 <= gi < out@.len() && group_in_output(
                                                    files@,
                                                    exact_groups@[k2],
                                                    out@,
                                                    gi,
                                                )) || group_in_infos(
                                                files@,
                                                exact_groups@[k2],
                                                members@,
                                            ) by {
                                                if group_in_infos(
                                                    files@,
                                                    exact_groups@[k2],
                                                    members_before_sib,
                                                ) {
                                                    lemma_group_in_infos_extend(
                                                        files@,
                                                        exact_groups@[k2],
                                                        members_before_sib,
                                                        members@,
                                                    );
                                                }
                                            }
                                        }
                                    } else {
                                        proof {
                                            assert forall|x: int|
                                                #![trigger members@[x]]
                                                members_snap.len() <= x < members@.len() implies
                                                is_batch_path(
                                                files@,
                                                g_ref.members@,
                                                pos2 + 1,
                                                members@[x].path@,
                                            ) by {
                                                lemma_batch_path_widen(
                                                    files@,
                                                    g_ref.members@,
                                                    pos2 as int,
                                                    pos2 + 1,
                                                    members@[x].path@,
                                                );
                                            }
                                            assert(files@[g_ref.members@[pos2 as int] as int].path@
                                                == hashed@[jj as int].info.path@);
                                            assert forall|q: int| 0 <= q < pos2 + 1 implies
                                                info_seq_has_path(
                                                members@,
                                                files@[(#[trigger] g_ref.members@[q]) as int].path@,
                                            ) by {}
                                        }
                                    }
                                    pos2 = pos2 + 1;
                                }
                                proof {
                                    assert(group_in_infos(
                                        files@,
                                        exact_groups@[k as int],
                                        members@,
                                    ));
                                    assert forall|k2: int|
                                        0 <= k2 < exact_groups@.len() && group_used@[k2] && (
                                    #[trigger] exact_groups@[k2].members@.len()) >= 2 implies (
                                    exists|gi: int|
                                        0 <= gi < out@.len() && group_in_output(
                                            files@,
                                            exact_groups@[k2],
                                            out@,
                                            gi,
                                        )) || group_in_infos(
                                        files@,
                                        exact_groups@[k2],
                                        members@,
                                    ) by {}
                                }
                            }
                            proof {
                                if contains {
                                    let q = choose|q: int|
                                        0 <= q < member_count && files@[#[trigger] g_ref.members@[q] as int].path@
                                            == hashed@[jj as int].info.path@;
                                    assert(group_contains_path(
                                        files@,
                                        exact_groups@[k as int],
                                        hashed@[jj as int].info.path@,
                                    ));
                                    assert(group_used@[k as int]);
                                } else {
                                    if group_contains_path(
                                        files@,
                                        exact_groups@[k as int],
                                        hashed@[jj as int].info.path@,
                                    ) {
                                        let pos9 = choose|pos9: int|
                                            0 <= pos9 < exact_groups@[k as int].members@.len()
                                                && files@[(#[trigger] exact_groups@[k as int].members@[pos9]) as int].path@
                                                == hashed@[jj as int].info.path@;
                                        assert(files@[g_ref.members@[pos9] as int].path@ == hashed@[jj as int].info.path@);
                                        assert(false);
                                    }
                                }
                            }
                            k = k + 1;
                        }
                        proof {
                            assert(claims_propagated_except(
                                files@,
                                exact_groups@,
                                hashed@,
                                visited@,
                                group_used@,
                                -1,
                            )) by {
                                assert forall|j2: int, k2: int|
                                    #![trigger group_contains_path(files@, exact_groups@[k2], hashed@[j2].info.path@)]
                                    0 <= j2 < hashed@.len() && visited@[j2] && j2 != -1 && 0 <= k2
                                        < exact_groups@.len() && group_contains_path(
                                        files@,
                                        exact_groups@[k2],
                                        hashed@[j2].info.path@,
                                    ) implies group_used@[k2] by {
                                    if j2 != jj as int {
                                    } else {
                                        assert(hashed@[j2].info.path@ == hashed@[jj as int].info.path@);
                                    }
                                }
                            }
                        }
                    }
                    jj = jj + 1;
                }
                mi = mi + 1;
            }
            proof {
                // The query around the founder's own fingerprint returns it
                // at distance zero, so the founder is claimed by now.
                assert(bits@[a as int] == Some(center_bits));
                let k0 = choose|k0: int|
                    0 <= k0 < index@.len() && index@[k0] == bits@[a as int]->Some_0;
                lemma_query_matches_reflexive(index@, center_bits, threshold, k0);
                let mi0 = choose|mi0: int|
                    0 <= mi0 < matches@.len() && matches@[mi0] == (0u32, center_bits);
                assert(bits@[a as int] == Some(matches@[mi0].1));
                assert(visited@[a as int]);
                // Every decodable item within the threshold of the founder
                // was matched by the query, so it is claimed by now.
                assert forall|j2: int|
                    0 <= j2 < m && #[trigger] fingerprints_within(
                        hashed@,
                        threshold,
                        a as int,
                        j2,
                    ) implies visited@[j2] by {
                    assert(bits@[j2] == spec_bits_of(hashed@[j2].hash@));
                    assert(bits@[j2] is Some);
                    let k2 = choose|k2: int|
                        0 <= k2 < index@.len() && index@[k2] == bits@[j2]->Some_0;
                    assert(hamming_distance(center_bits, index@[k2]) <= threshold);
                    lemma_query_matches_complete(index@, center_bits, threshold, k2);
                    let pm = (hamming_distance(center_bits, index@[k2]) as u32, index@[k2]);
                    let mi2 = choose|mi2: int|
                        0 <= mi2 < matches@.len() && matches@[mi2] == pm;
                    assert(bits@[j2] == Some(matches@[mi2].1));
                }
            }
            if members.len() > 1 {
                let ghost members_final = members@;
                let ghost out_before = out@;
                out.push(DuplicateGroup { images: members });
                proof {
                    assert(out@.last().images@ == members_final);
                    assert forall|g1: int, i1: int, g2: int, i2: int|
                        0 <= g1 < out@.len() && 0 <= i1 < out@[g1].images@.len() && 0 <= g2
                            < out@.len() && 0 <= i2 < out@[g2].images@.len() && (g1 != g2 || i1
                            != i2) implies (#[trigger] out@[g1].images@[i1].path@) != (
                    #[trigger] out@[g2].images@[i2].path@) by {
                        let last = out@.len() - 1;
                        if g1 == last && g2 == last {
                            assert(members_final[i1].path@ != members_final[i2].path@);
                        } else if g1 == last {
                            assert(out@[g2].images@[i2].path@ != members_final[i1].path@);
                        } else if g2 == last {
                            assert(out@[g1].images@[i1].path@ != members_final[i2].path@);
                        }
                    }
                    assert forall|k2: int|
                        0 <= k2 < exact_groups@.len() && group_used@[k2] && (
                    #[trigger] exact_groups@[k2].members@.len()) >= 2 implies exists|gi: int|
                        0 <= gi < out@.len() && group_in_output(files@, exact_groups@[k2], out@, gi)
                        by {
                        if exists|gi: int|
                            0 <= gi < out_before.len() && group_in_output(
                                files@,
                                exact_groups@[k2],
                                out_before,
                                gi,
                            ) {
                            let gi = choose|gi: int|
                                0 <= gi < out_before.len() && group_in_output(
                                    files@,
                                    exact_groups@[k2],
                                    out_before,
                                    gi,
                                );
                            assert(out@[gi] == out_before[gi]);
                            assert(group_in_output(files@, exact_groups@[k2], out@, gi)) by {
                                assert forall|pos: int|
                                    0 <= pos < exact_groups@[k2].members@.len() implies
                                    info_seq_has_path(
                                    out@[gi].images@,
                                    files@[(#[trigger] exact_groups@[k2].members@[pos]) as int].path@,
                                ) by {
                                    assert(info_seq_has_path(
                                        out_before[gi].images@,
                                        files@[exact_groups@[k2].members@[pos] as int].path@,
                                    ));
                                }
                            }
                        } else {
                            assert(group_in_infos(files@, exact_groups@[k2], members_final));
                            let last = out@.len() - 1;
                            assert(group_in_output(files@, exact_groups@[k2], out@, last)) by {
                                assert forall|pos: int|
                                    0 <= pos < exact_groups@[k2].members@.len() implies
                                    info_seq_has_path(
                                    out@[last].images@,
                                    files@[(#[trigger] exact_groups@[k2].members@[pos]) as int].path@,
                                ) by {
                                    assert(info_seq_has_path(
                                        members_final,
                                        files@[exact_groups@[k2].members@[pos] as int].path@,
                                    ));
                                }
                            }
                        }
                    }
                    // The new group is founded around this round's founder;
                    // the earlier groups keep their founders.
                    assert forall|g: int|
                        0 <= g < out@.len() implies group_founded(
                        files@,
                        exact_groups@,
                        hashed@,
                        threshold,
                        #[trigger] out@[g],
                    ) by {
                        if g == out@.len() - 1 {
                            assert(out@[g].images@ == members_final);
                            assert(spec_bits_of(hashed@[a as int].hash@) is Some);
                            assert forall|i: int|
                                0 <= i < out@[g].images@.len() implies near_founder(
                                files@,
                                exact_groups@,
                                hashed@,
                                threshold,
                                a as int,
                                (#[trigger] out@[g].images@[i]).path@,
                            ) by {
                                assert(near_founder(
                                    files@,
                                    exact_groups@,
                                    hashed@,
                                    threshold,
                                    a as int,
                                    members_final[i].path@,
                                ));
                            }
                        } else {
                            assert(out@[g] == out_before[g]);
                        }
                    }
                    // An item claimed without reaching the output no longer
                    // exists: everything claimed this round went into the
                    // pushed group, and the earlier claims were settled at
                    // the round's start.
                    assert(neighbors_settled(hashed@, threshold, out@, visited@)) by {
                        assert forall|j: int, j2: int|
                            0 <= j < hashed@.len() && visited@[j] && !path_in_output(
                                out@,
                                hashed@[j].info.path@,
                            ) && j2 != j && #[trigger] fingerprints_within(
                                hashed@,
                                threshold,
                                j,
                                j2,
                            ) implies visited@[j2] && path_in_output(
                            out@,
                            hashed@[j2].info.path@,
                        ) by {
                            if !visited_start[j] {
                                assert(info_seq_has_path(members_final, hashed@[j].info.path@));
                                assert(info_seq_has_path(
                                    out@[out@.len() - 1].images@,
                                    hashed@[j].info.path@,
                                ));
                                assert(path_in_output(out@, hashed@[j].info.path@));
                                assert(false);
                            } else {
                                if path_in_output(out_start, hashed@[j].info.path@) {
                                    lemma_path_in_output_extend(
                                        out_start,
                                        out@,
                                        hashed@[j].info.path@,
                                    );
                                    assert(false);
                                }
                                assert(visited_start[j2] && path_in_output(
                                    out_start,
                                    hashed@[j2].info.path@,
                                ));
                                lemma_path_in_output_extend(
                                    out_start,
                                    out@,
                                    hashed@[j2].info.path@,
                                );
                            }
                        }
                    }
                    // An isolated pair is untouched, already grouped, or --
                    // when this round's founder belongs to it -- grouped
                    // whole into the pushed group.
                    assert(pairs_settled(hashed@, threshold, out@, visited@)) by {
                        assert forall|j1: int, j2: int|
                            #[trigger] isolated_pair(hashed@, threshold, j1, j2) implies (
                        !visited@[j1] && !visited@[j2]) || same_output_group(
                            out@,
                            hashed@[j1].info.path@,
                            hashed@[j2].info.path@,
                        ) by {
                            if visited@[j1] || visited@[j2] {
                                if visited_start[j1] || visited_start[j2] {
                                    assert(same_output_group(
                                        out_start,
                                        hashed@[j1].info.path@,
                                        hashed@[j2].info.path@,
                                    ));
                                    let gi = choose|gi: int|
                                        0 <= gi < out_start.len() && info_seq_has_path(
                                            (#[trigger] out_start[gi]).images@,
                                            hashed@[j1].info.path@,
                                        ) && info_seq_has_path(
                                            out_start[gi].images@,
                                            hashed@[j2].info.path@,
                                        );
                                    assert(out@[gi] == out_start[gi]);
                                    assert(same_output_group(
                                        out@,
                                        hashed@[j1].info.path@,
                                        hashed@[j2].info.path@,
                                    ));
                                } else {
                                    // Something of the pair was claimed this
                                    // round, so the founder belongs to the
                                    // pair: a third item within the threshold
                                    // would break its isolation.
                                    if a as int != j1 && a as int != j2 {
                                        if visited@[j1] {
                                            assert(fingerprints_within(
                                                hashed@,
                                                threshold,
                                                a as int,
                                                j1,
                                            )) by {
                                                assert(bits@[a as int] == spec_bits_of(
                                                    hashed@[a as int].hash@,
                                                ));
                                                assert(bits@[j1] == spec_bits_of(
                                                    hashed@[j1].hash@,
                                                ));
                                            }
                                            lemma_fingerprints_within_symmetric(
                                                hashed@,
                                                threshold,
                                                a as int,
                                                j1,
                                            );
                                            assert(false);
                                        } else {
                                            assert(fingerprints_within(
                                                hashed@,
                                                threshold,
                                                a as int,
                                                j2,
                                            )) by {
                                                assert(bits@[a as int] == spec_bits_of(
                                                    hashed@[a as int].hash@,
                                                ));
                                                assert(bits@[j2] == spec_bits_of(
                                                    hashed@[j2].hash@,
                                                ));
                                            }
                                            lemma_fingerprints_within_symmetric(
                                                hashed@,
                                                threshold,
                                                a as int,
                                                j2,
                                            );
                                            assert(false);
                                        }
                                    }
                                    let other = if a as int == j1 {
                                        j2
                                    } else {
                                        j1
                                    };
                                    assert(fingerprints_within(
                                        hashed@,
                                        threshold,
                                        a as int,
                                        other,
                                    )) by {
                                        if a as int == j2 {
                                            lemma_fingerprints_within_symmetric(
                                                hashed@,
                                                threshold,
                                                j1,
                                                j2,
                                            );
                                        }
                                    }
                                    assert(visited@[other]);
                                    assert(info_seq_has_path(
                                        members_final,
                                        hashed@[other].info.path@,
                                    ));
                                    assert(info_seq_has_path(
                                        members_final,
                                        hashed@[a as int].info.path@,
                                    ));
                                    let last = out@.len() - 1;
                                    assert(info_seq_has_path(
                                        out@[last].images@,
                                        hashed@[j1].info.path@,
                                    ));
                                    assert(info_seq_has_path(
                                        out@[last].images@,
                                        hashed@[j2].info.path@,
                                    ));
                                    assert(same_output_group(
                                        out@,
                                        hashed@[j1].info.path@,
                                        hashed@[j2].info.path@,
                                    ));
                                }
                            }
                        }
                    }
                }
            } else {
                proof {
                    // A merged group with two or more members always put two
                    // distinct paths into the group under construction, so a
                    // dropped one-member group covers no merged group.
                    assert forall|k2: int|
                        0 <= k2 < exact_groups@.len() && group_used@[k2] && (
                    #[trigger] exact_groups@[k2].members@.len()) >= 2 implies exists|gi: int|
                        0 <= gi < out@.len() && group_in_output(files@, exact_groups@[k2], out@, gi)
                        by {
                        if !exists|gi: int|
                            0 <= gi < out@.len() && group_in_output(
                                files@,
                                exact_groups@[k2],
                                out@,
                                gi,
                            ) {
                            assert(group_in_infos(files@, exact_groups@[k2], members@));
                            let idx0 = exact_groups@[k2].members@[0] as int;
                            let idx1 = exact_groups@[k2].members@[1] as int;
                            let p0 = files@[idx0].path@;
                            let p1 = files@[idx1].path@;
                            assert(info_seq_has_path(members@, p0));
                            assert(info_seq_has_path(members@, p1));
                            let i0 = choose|i0: int|
                                0 <= i0 < members@.len() && (#[trigger] members@[i0]).path@ == p0;
                            let i1 = choose|i1: int|
                                0 <= i1 < members@.len() && (#[trigger] members@[i1]).path@ == p1;
                            assert(exact_groups@[k2].members@[0] != exact_groups@[k2].members@[1]);
                            if p0 == p1 {
                                lemma_file_paths_injective(files@, idx0, idx1);
                                assert(false);
                            }
                            assert(i0 != i1);
                            assert(members@.len() >= 2);
                            assert(false);
                        }
                    }
                    // With at most one member gathered, only the founder
                    // itself was claimed this round: a second claim would
                    // have put a second distinct path among the members.
                    assert forall|j: int|
                        0 <= j < m && visited@[j] && !visited_start[j] implies j == a as int by {
                        if j != a as int {
                            assert(info_seq_has_path(members@, hashed@[j].info.path@));
                            assert(info_seq_has_path(members@, hashed@[a as int].info.path@));
                            if hashed@[j].info.path@ == hashed@[a as int].info.path@ {
                                lemma_hashed_paths_injective(hashed@, j, a as int);
                            }
                            let i0 = choose|i0: int|
                                0 <= i0 < members@.len() && (#[trigger] members@[i0]).path@
                                    == hashed@[j].info.path@;
                            let i1 = choose|i1: int|
                                0 <= i1 < members@.len() && (#[trigger] members@[i1]).path@
                                    == hashed@[a as int].info.path@;
                            assert(i0 != i1);
                            assert(members@.len() >= 2);
                            assert(false);
                        }
                    }
                    // The founder matched nothing new: all its neighbors
                    // were already claimed and grouped earlier, so every
                    // claim stays settled.
                    assert(neighbors_settled(hashed@, threshold, out@, visited@)) by {
                        assert forall|j: int, j2: int|
                            0 <= j < hashed@.len() && visited@[j] && !path_in_output(
                                out@,
                                hashed@[j].info.path@,
                            ) && j2 != j && #[trigger] fingerprints_within(
                                hashed@,
                                threshold,
                                j,
                                j2,
                            ) implies visited@[j2] && path_in_output(
                            out@,
                            hashed@[j2].info.path@,
                        ) by {
                            if j == a as int {
                                assert(visited@[j2]);
                                assert(visited_start[j2]);
                                if !path_in_output(out@, hashed@[j2].info.path@) {
                                    lemma_fingerprints_within_symmetric(
                                        hashed@,
                                        threshold,
                                        a as int,
                                        j2,
                                    );
                                    assert(fingerprints_within(
                                        hashed@,
                                        threshold,
                                        j2,
                                        a as int,
                                    ));
                                    assert(visited_start[a as int]);
                                    assert(false);
                                }
                            } else {
                                assert(visited_start[j]);
                                assert(visited_start[j2] && path_in_output(
                                    out_start,
                                    hashed@[j2].info.path@,
                                ));
                            }
                        }
                    }
                    // An isolated pair containing the founder would have
                    // been claimed whole, giving two members; so every pair
                    // stays untouched or grouped as it was.
                    assert(pairs_settled(hashed@, threshold, out@, visited@)) by {
                        assert forall|j1: int, j2: int|
                            #[trigger] isolated_pair(hashed@, threshold, j1, j2) implies (
                        !visited@[j1] && !visited@[j2]) || same_output_group(
                            out@,
                            hashed@[j1].info.path@,
                            hashed@[j2].info.path@,
                        ) by {
                            if visited@[j1] || visited@[j2] {
                                if !visited_start[j1] && !visited_start[j2] {
                                    if visited@[j1] {
                                        assert(j1 == a as int);
                                        assert(fingerprints_within(
                                            hashed@,
                                            threshold,
                                            a as int,
                                            j2,
                                        ));
                                        assert(visited@[j2]);
                                        assert(j2 == a as int);
                                        assert(false);
                                    } else {
                                        assert(j2 == a as int);
                                        lemma_fingerprints_within_symmetric(
                                            hashed@,
                                            threshold,
                                            j1,
                                            j2,
                                        );
                                        assert(fingerprints_within(
                                            hashed@,
                                            threshold,
                                            a as int,
                                            j1,
                                        ));
                                        assert(visited@[j1]);
                                        assert(false);
                                    }
                                } else {
                                    assert(same_output_group(
                                        out_start,
                                        hashed@[j1].info.path@,
                                        hashed@[j2].info.path@,
                                    ));
                                }
                            }
                        }
                    }
                }
            }
        }
        a = a + 1;
    }
    proof {
        assert forall|g: int, i: int|
            0 <= g < out@.len() && 0 <= i < out@[g].images@.len() implies is_hashed_path(
            hashed@,
            (#[trigger] out@[g].images@[i]).path@,
        ) || is_exact_member_path(files@, exact_groups@, out@[g].images@[i].path@) by {
            let p = out@[g].images@[i].path@;
            assert(path_sourced(files@, exact_groups@, hashed@, visited@, group_used@, p));
            if claimed_path(hashed@, visited@, p) {
                let j = choose|j: int|
                    0 <= j < hashed@.len() && visited@[j] && (#[trigger] hashed@[j].info.path@)
                        == p;
                assert(is_hashed_path(hashed@, p));
            } else {
                let (k, pos) = choose|k: int, pos: int|
                    0 <= k < exact_groups@.len() && group_used@[k] && 1 <= pos < exact_groups@[k].members@.len() && files@[#[trigger] exact_groups@[k].members@[pos] as int].path@
                        == p;
                assert(is_exact_member_path(files@, exact_groups@, p));
            }
        }
        assert forall|k: int|
            0 <= k < exact_groups@.len() && (#[trigger] exact_groups@[k].members@.len()) >= 2
                && is_hashed_decodable(hashed@, rep_path(files@, exact_groups@[k])) implies exists|
            gi: int,
        | 0 <= gi < out@.len() && group_in_output(files@, exact_groups@[k], out@, gi) by {
            let j = choose|j: int|
                0 <= j < hashed@.len() && (#[trigger] hashed@[j].info.path@) == rep_path(
                    files@,
                    exact_groups@[k],
                ) && spec_decode_fingerprint(hashed@[j].hash@) is Some;
            assert(bits@[j] == spec_bits_of(hashed@[j].hash@));
            assert(bits@[j] is Some);
            assert(visited@[j]);
            assert(files@[(exact_groups@[k].members@[0]) as int].path@ == hashed@[j].info.path@);
            assert(group_contains_path(files@, exact_groups@[k], hashed@[j].info.path@));
            assert(group_used@[k]);
        }
        // Every decodable item was visited, so two items within the
        // threshold cannot both have stayed out of the output, and an
        // isolated pair lies whole in one group.
        assert forall|j1: int, j2: int|
            j1 != j2 && #[trigger] fingerprints_within(hashed@, threshold, j1, j2) implies
            path_in_output(out@, hashed@[j1].info.path@) || path_in_output(
            out@,
            hashed@[j2].info.path@,
        ) by {
            assert(bits@[j1] == spec_bits_of(hashed@[j1].hash@));
            assert(bits@[j2] == spec_bits_of(hashed@[j2].hash@));
            assert(visited@[j1] && visited@[j2]);
        }
        assert forall|j1: int, j2: int|
            #[trigger] isolated_pair(hashed@, threshold, j1, j2) implies same_output_group(
            out@,
            hashed@[j1].info.path@,
            hashed@[j2].info.path@,
        ) by {
            assert(fingerprints_within(hashed@, threshold, j1, j2));
            assert(bits@[j1] == spec_bits_of(hashed@[j1].hash@));
            assert(bits@[j2] == spec_bits_of(hashed@[j2].hash@));
            assert(visited@[j1] && visited@[j2]);
        }
    }
    out
}

} // verus!


