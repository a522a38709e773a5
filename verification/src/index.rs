//! The fingerprint index: a mapping from fingerprint to the reference paths
//! producing it, in insertion order. Built once over the reference tree,
//! read-only afterwards.

use vstd::prelude::*;
use crate::bytes::{clone_bytes, path_views};
use crate::fs::{found_views, FoundFile};
use crate::hash::{fingerprint_spec, Hasher};

verus! {

/// The mathematical value of one index entry: a fingerprint and the path
/// inserted under it.
pub open spec fn pair_views(s: Seq<(u64, Vec<u8>)>) -> Seq<(u64, Seq<u8>)> {
    s.map_values(|p: (u64, Vec<u8>)| (p.0, p.1@))
}

/// The bucket of fingerprint `h`: the paths inserted under `h`, in
/// insertion order.
pub open spec fn bucket_of(pairs: Seq<(u64, Seq<u8>)>, h: u64) -> Seq<Seq<u8>>
    decreases pairs.len(),
{
    if pairs.len() == 0 {
        Seq::empty()
    } else {
        bucket_of(pairs.drop_last(), h) + if pairs.last().0 == h {
            seq![pairs.last().1]
        } else {
            Seq::empty()
        }
    }
}

/// The index an indexing pass over `files` builds: each file's path under
/// its fingerprint, in traversal order.
pub open spec fn index_spec(files: Seq<(Seq<u8>, Seq<u8>)>, k: int) -> Seq<(u64, Seq<u8>)> {
    files.map_values(|f: (Seq<u8>, Seq<u8>)| (fingerprint_spec(f.1, k) as u64, f.0))
}

/// The mapping from fingerprint to the ordered list of reference paths
/// producing it.
pub struct FingerprintIndex {
    /// The (fingerprint, path) insertions, oldest first.
    pub pairs: Vec<(u64, Vec<u8>)>,
}

impl FingerprintIndex {
    /// The insertions this index holds.
    pub open spec fn entries(self) -> Seq<(u64, Seq<u8>)> {
        pair_views(self.pairs@)
    }

    /// The paths filed under fingerprint `h`.
    pub open spec fn bucket(self, h: u64) -> Seq<Seq<u8>> {
        bucket_of(self.entries(), h)
    }

    /// An empty index.
    pub fn new() -> (index: FingerprintIndex)
        ensures
            index.entries() == Seq::<(u64, Seq<u8>)>::empty(),
    {
        let index = FingerprintIndex { pairs: Vec::new() };
        proof {
            assert(index.entries() =~= Seq::<(u64, Seq<u8>)>::empty());
        }
        index
    }

    /// Files `path` under fingerprint `h`: appended to `h`'s bucket, a new
    /// one-element bucket if `h` was not seen before, every other bucket
    /// untouched.
    pub fn insert(&mut self, h: u64, path: Vec<u8>)
        ensures
            final(self).entries() == old(self).entries().push((h, path@)),
            final(self).bucket(h) == old(self).bucket(h).push(path@),
            forall|other: u64| other != h ==> final(self).bucket(other) == old(self).bucket(other),
    {
        let ghost before = self.entries();
        self.pairs.push((h, path));
        proof {
            assert(self.entries() =~= before.push((h, path@)));
            assert(self.entries().drop_last() =~= before);
            assert(bucket_of(self.entries(), h) == bucket_of(before, h) + seq![path@]);
            assert(bucket_of(before, h) + seq![path@] =~= bucket_of(before, h).push(path@));
            assert forall|other: u64| other != h implies bucket_of(self.entries(), other)
                == bucket_of(before, other) by {
                assert(bucket_of(self.entries(), other) == bucket_of(before, other) + Seq::<
                    Seq<u8>,
                >::empty());
                assert(bucket_of(before, other) + Seq::<Seq<u8>>::empty() =~= bucket_of(
                    before,
                    other,
                ));
            }
        }
    }

    /// The bucket of fingerprint `h`, as fresh copies of the paths; empty
    /// when no reference file produced `h`.
    pub fn lookup(&self, h: u64) -> (bucket: Vec<Vec<u8>>)
        ensures
            path_views(bucket@) == self.bucket(h),
    {
        let mut bucket: Vec<Vec<u8>> = Vec::new();
        let n = self.pairs.len();
        let mut i: usize = 0;
        proof {
            assert(path_views(bucket@) =~= bucket_of(self.entries().take(0), h));
        }
        while i < n
            invariant
                n == self.pairs@.len(),
                0 <= i <= n,
                path_views(bucket@) == bucket_of(self.entries().take(i as int), h),
            decreases n - i,
        {
            proof {
                assert(self.entries().take(i + 1).drop_last() =~= self.entries().take(i as int));
                assert(self.entries().take(i + 1).last() == self.entries()[i as int]);
            }
            let entry = &self.pairs[i];
            if entry.0 == h {
                let path = clone_bytes(&entry.1);
                proof {
                    assert(path_views(bucket@.push(path)) =~= path_views(bucket@) + seq![path@]);
                }
                bucket.push(path);
            } else {
                proof {
                    assert(path_views(bucket@) =~= path_views(bucket@) + Seq::<Seq<u8>>::empty());
                }
            }
            i = i + 1;
        }
        proof {
            assert(self.entries().take(n as int) =~= self.entries());
        }
        bucket
    }
}

/// How many distinct fingerprints the insertions carry: an insertion counts
/// when no earlier insertion brought the same fingerprint.
pub open spec fn distinct_hash_count(pairs: Seq<(u64, Seq<u8>)>) -> nat
    decreases pairs.len(),
{
    if pairs.len() == 0 {
        0
    } else {
        distinct_hash_count(pairs.drop_last()) + if exists|j: int|
            0 <= j < pairs.len() - 1 && (#[trigger] pairs[j]).0 == pairs.last().0 {
            0nat
        } else {
            1nat
        }
    }
}

impl FingerprintIndex {
    /// How many entries the mapping has: the number of distinct
    /// fingerprints seen.
    pub fn hash_count(&self) -> (n: usize)
        ensures
            n == distinct_hash_count(self.entries()),
    {
        let mut n: usize = 0;
        let total = self.pairs.len();
        let mut i: usize = 0;
        while i < total
            invariant
                total == self.pairs@.len(),
                0 <= i <= total,
                n <= i,
                n == distinct_hash_count(self.entries().take(i as int)),
            decreases total - i,
        {
            proof {
                assert(self.entries().take(i + 1).drop_last() =~= self.entries().take(i as int));
                assert(self.entries().take(i + 1).last() == self.entries()[i as int]);
            }
            let mut seen = false;
            let mut j: usize = 0;
            while j < i
                invariant
                    total == self.pairs@.len(),
                    0 <= j <= i < total,
                    seen == exists|t: int|
                        0 <= t < j && (#[trigger] self.entries()[t]).0 == self.entries()[i as int].0,
                decreases i - j,
            {
                proof {
                    assert(self.entries()[j as int].0 == self.pairs@[j as int].0);
                    assert(self.entries()[i as int].0 == self.pairs@[i as int].0);
                }
                if self.pairs[j].0 == self.pairs[i].0 {
                    seen = true;
                }
                j = j + 1;
            }
            proof {
                let s = self.entries();
                let st = s.take(i + 1);
                assert(st.last() == s[i as int]);
                if seen {
                    let t = choose|t: int| 0 <= t < i && (#[trigger] s[t]).0 == s[i as int].0;
                    assert(st[t] == s[t]);
                    assert((#[trigger] st[t]).0 == st.last().0);
                } else {
                    assert forall|t: int| 0 <= t < i implies (#[trigger] st[t]).0 != st.last().0 by {
                        assert(st[t] == s[t]);
                    }
                }
            }
            if !seen {
                n = n + 1;
            }
            i = i + 1;
        }
        proof {
            assert(self.entries().take(total as int) =~= self.entries());
        }
        n
    }
}

/// Builds the fingerprint index over the files of the reference traversal:
/// for each file in order, its fingerprint over the configured prefix length
/// is computed from its contents and its path is filed under it.
pub fn files_by_hash(files: &Vec<FoundFile>, hash_prefix: usize) -> (index: FingerprintIndex)
    ensures
        index.entries() == index_spec(found_views(files@), hash_prefix as int),
{
    let mut index = FingerprintIndex::new();
    let n = files.len();
    let mut i: usize = 0;
    proof {
        assert(index.entries() =~= index_spec(found_views(files@).take(0), hash_prefix as int));
    }
    while i < n
        invariant
            n == files@.len(),
            0 <= i <= n,
            index.entries() == index_spec(
                found_views(files@).take(i as int),
                hash_prefix as int,
            ),
        decreases n - i,
    {
        let file = &files[i];
        let h = fingerprint_bytes(&file.content, hash_prefix);
        let path = clone_bytes(&file.path);
        index.insert(h, path);
        proof {
            assert(index.entries() =~= index_spec(
                found_views(files@).take(i + 1),
                hash_prefix as int,
            ));
        }
        i = i + 1;
    }
    proof {
        assert(found_views(files@).take(n as int) =~= found_views(files@));
    }
    index
}

/// The fingerprint of in-memory contents under prefix length `k`: what
/// hashing the stream of these bytes returns.
pub fn fingerprint_bytes(content: &Vec<u8>, k: usize) -> (h: u64)
    ensures
        h == fingerprint_spec(content@, k as int),
{
    let mut hasher = Hasher::new(k);
    hasher.update(content.as_slice());
    proof {
        assert(Seq::<u8>::empty() + content@ =~= content@);
    }
    hasher.finish()
}

} // verus!
