//! Fingerprint cache: a mapping from file path to the fingerprint that
//! was last computed for it, keyed by the file's modification time.
//!
//! A lookup returns the stored fingerprint only when the stored
//! modification time equals the current one; any mismatch is a miss,
//! so a changed file is silently refingerprinted.  Loading the store
//! from disk and flushing it back are the embedding's concern; the
//! cache itself is a plain in-memory map.

use vstd::prelude::*;
use crate::hashing::str_eq;

verus! {

/// One cache entry: an encoded fingerprint and the modification time
/// (seconds since the epoch) of the file it was computed from.
#[derive(Debug, Clone)]
pub struct CachedHash {
    pub hash: String,
    pub mtime: u64,
}

/// The mapping a sequence of keyed entries stands for, later entries
/// overriding earlier ones with the same path.
pub open spec fn assoc_map(s: Seq<(String, CachedHash)>) -> Map<Seq<char>, (Seq<char>, u64)>
    decreases s.len(),
{
    if s.len() == 0 {
        Map::empty()
    } else {
        assoc_map(s.drop_last()).insert(s.last().0@, (s.last().1.hash@, s.last().1.mtime))
    }
}

/// An in-memory fingerprint cache.  Its view is the mapping from path
/// to (encoded fingerprint, modification time).
pub struct HashCache {
    entries: Vec<(String, CachedHash)>,
}

impl View for HashCache {
    type V = Map<Seq<char>, (Seq<char>, u64)>;

    closed spec fn view(&self) -> Map<Seq<char>, (Seq<char>, u64)> {
        assoc_map(self.entries@)
    }
}

spec fn unique_keys(s: Seq<(String, CachedHash)>) -> bool {
    forall|i: int, j: int| 0 <= i < j < s.len() ==> s[i].0@ != s[j].0@
}

proof fn lemma_assoc_map_absent(s: Seq<(String, CachedHash)>, key: Seq<char>)
    requires
        forall|i: int| 0 <= i < s.len() ==> s[i].0@ != key,
    ensures
        !assoc_map(s).dom().contains(key),
    decreases s.len(),
{
    if s.len() > 0 {
        lemma_assoc_map_absent(s.drop_last(), key);
    }
}

proof fn lemma_assoc_map_index(s: Seq<(String, CachedHash)>, i: int)
    requires
        unique_keys(s),
        0 <= i < s.len(),
    ensures
        assoc_map(s).dom().contains(s[i].0@),
        assoc_map(s)[s[i].0@] == (s[i].1.hash@, s[i].1.mtime),
    decreases s.len(),
{
    if i < s.len() - 1 {
        lemma_assoc_map_index(s.drop_last(), i);
    }
}

proof fn lemma_assoc_map_remove(s: Seq<(String, CachedHash)>, i: int)
    requires
        unique_keys(s),
        0 <= i < s.len(),
    ensures
        assoc_map(s.remove(i)) == assoc_map(s).remove(s[i].0@),
    decreases s.len(),
{
    let key = s[i].0@;
    if i == s.len() - 1 {
        assert(s.remove(i) =~= s.drop_last());
        lemma_assoc_map_absent(s.drop_last(), key);
        assert(assoc_map(s.drop_last()) =~= assoc_map(s).remove(key));
    } else {
        lemma_assoc_map_remove(s.drop_last(), i);
        assert(s.remove(i).drop_last() =~= s.drop_last().remove(i));
        assert(s.remove(i).last() == s.last());
        assert(assoc_map(s.remove(i)) =~= assoc_map(s).remove(key));
    }
}

impl HashCache {
    /// The cache holds each path at most once.
    pub closed spec fn wf(&self) -> bool {
        unique_keys(self.entries@)
    }

    /// Creates an empty cache.
    pub fn new() -> (r: HashCache)
        ensures
            r.wf(),
            r@ == Map::<Seq<char>, (Seq<char>, u64)>::empty(),
    {
        HashCache { entries: Vec::new() }
    }

    /// Returns the fingerprint stored for `path`, but only when it was
    /// recorded at exactly `current_mtime`; a stale or absent entry is
    /// a miss, never an error.
    pub fn get(&self, path: &str, current_mtime: u64) -> (r: Option<String>)
        requires
            self.wf(),
        ensures
            match r {
                Some(h) => self@.contains_key(path@) && self@[path@].1 == current_mtime && h@
                    == self@[path@].0,
                None => !(self@.contains_key(path@) && self@[path@].1 == current_mtime),
            },
    {
        let n = self.entries.len();
        let mut i: usize = 0;
        while i < n
            invariant
                self.wf(),
                n == self.entries@.len(),
                i <= n,
                forall|k: int| 0 <= k < i ==> self.entries@[k].0@ != path@,
            decreases n - i,
        {
            if str_eq(self.entries[i].0.as_str(), path) {
                proof {
                    lemma_assoc_map_index(self.entries@, i as int);
                }
                let entry = &self.entries[i].1;
                if entry.mtime == current_mtime {
                    return Some(entry.hash.clone());
                } else {
                    return None;
                }
            }
            i = i + 1;
        }
        proof {
            lemma_assoc_map_absent(self.entries@, path@);
        }
        None
    }

    /// Records a fingerprint for `path` at modification time `mtime`,
    /// replacing any earlier entry for that path.
    pub fn insert(&mut self, path: String, mtime: u64, hash: String)
        requires
            old(self).wf(),
        ensures
            final(self).wf(),
            final(self)@ == old(self)@.insert(path@, (hash@, mtime)),
    {
        let n = self.entries.len();
        let mut i: usize = 0;
        while i < n
            invariant
                self.wf(),
                self@ == old(self)@,
                self.entries@ == old(self).entries@,
                n == self.entries@.len(),
                i <= n,
                forall|k: int| 0 <= k < i ==> self.entries@[k].0@ != path@,
            decreases n - i,
        {
            if str_eq(self.entries[i].0.as_str(), path.as_str()) {
                proof {
                    lemma_assoc_map_remove(self.entries@, i as int);
                }
                self.entries.remove(i);
                proof {
                    assert forall|a: int, b: int|
                        0 <= a < b < self.entries@.len() implies self.entries@[a].0@
                        != self.entries@[b].0@ by {
                        assert(self.entries@[a] == old(self).entries@[
                            if a < i as int {
                                a
                            } else {
                                a + 1
                            }
                        ]);
                        assert(self.entries@[b] == old(self).entries@[
                            if b < i as int {
                                b
                            } else {
                                b + 1
                            }
                        ]);
                    }
                }
                self.entries.push((path, CachedHash { hash, mtime }));
                proof {
                    assert(self.entries@.drop_last() =~= old(self).entries@.remove(i as int));
                    assert(final(self)@ =~= old(self)@.insert(path@, (hash@, mtime)));
                    assert forall|a: int, b: int|
                        0 <= a < b < self.entries@.len() implies self.entries@[a].0@
                        != self.entries@[b].0@ by {
                        if b < self.entries@.len() - 1 {
                        } else {
                            let orig_a = if a < i as int {
                                a
                            } else {
                                a + 1
                            };
                            assert(old(self).entries@[orig_a].0@ != old(self).entries@[i as int].0@);
                        }
                    }
                }
                return ;
            }
            i = i + 1;
        }
        proof {
            lemma_assoc_map_absent(self.entries@, path@);
        }
        self.entries.push((path, CachedHash { hash, mtime }));
        proof {
            assert(self.entries@.drop_last() =~= old(self).entries@);
            assert(final(self)@ =~= old(self)@.insert(path@, (hash@, mtime)));
        }
    }

    /// The entries of the cache, for the embedding to persist.
    pub fn entries(&self) -> (r: &Vec<(String, CachedHash)>)
        ensures
            assoc_map(r@) == self@,
    {
        &self.entries
    }

    /// Rebuilds a cache from persisted entries, later entries
    /// overriding earlier ones with the same path.
    pub fn from_entries(list: Vec<(String, CachedHash)>) -> (r: HashCache)
        ensures
            r.wf(),
            r@ == assoc_map(list@),
    {
        let mut cache = HashCache::new();
        let n = list.len();
        let mut i: usize = 0;
        while i < n
            invariant
                cache.wf(),
                n == list@.len(),
                i <= n,
                cache@ == assoc_map(list@.subrange(0, i as int)),
            decreases n - i,
        {
            let path = list[i].0.clone();
            let mtime = list[i].1.mtime;
            let hash = list[i].1.hash.clone();
            cache.insert(path, mtime, hash);
            proof {
                assert(list@.subrange(0, i + 1).drop_last() =~= list@.subrange(0, i as int));
                assert(list@.subrange(0, i + 1).last() == list@[i as int]);
            }
            i = i + 1;
        }
        proof {
            assert(list@.subrange(0, n as int) =~= list@);
        }
        cache
    }
}

/// A fingerprint recorded for a path is returned by a lookup with the
/// same path and the same modification time.
pub proof fn lemma_cache_record_then_lookup(
    m: Map<Seq<char>, (Seq<char>, u64)>,
    path: Seq<char>,
    mtime: u64,
    hash: Seq<char>,
)
    ensures
        m.insert(path, (hash, mtime)).contains_key(path),
        m.insert(path, (hash, mtime))[path] == (hash, mtime),
{
}

/// A recorded fingerprint comes back from the cache bit-identical: a
/// lookup under the same path and modification time returns exactly
/// the stored encoding, and that encoding decodes to the fingerprint
/// that was recorded.  A rerun over unchanged files therefore works
/// with the same fingerprints as the run that recorded them.
pub proof fn lemma_cached_fingerprint_stable(
    m: Map<Seq<char>, (Seq<char>, u64)>,
    path: Seq<char>,
    mtime: u64,
    fp: crate::fingerprint::PerceptualFingerprint,
)
    ensures
        ({
            let stored = m.insert(path, (crate::fingerprint::spec_encode_fingerprint(fp), mtime));
            &&& stored.contains_key(path)
            &&& stored[path].1 == mtime
            &&& crate::fingerprint::spec_decode_fingerprint(stored[path].0) == Some(fp)
        }),
{
    crate::fingerprint::lemma_fingerprint_round_trip(fp);
}

} // verus!
