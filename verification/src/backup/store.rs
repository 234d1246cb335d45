//! The content store: deduplicated, compressed blobs keyed by content hash.
//!
//! At most one physical blob exists per distinct content hash; writing is
//! idempotent (storing content whose hash is already present writes
//! nothing and reports the computed hash).

use vstd::prelude::*;

use crate::assoc::{assoc_map, keys_unique, lemma_assoc_map_contains, lemma_assoc_map_index,
    lemma_assoc_map_push};
use crate::backup::hash::{hash, hash_of, Sha256Sum};
use crate::backup::manifest::{manifest_of, Manifest, TreeSnapshot};
use crate::error::{BackupResult, MyError};

verus! {

/// What `zstd::stream::decode_all` returns for a byte sequence: the decoded
/// frame contents, or nothing when the bytes are not one valid zstd frame.
/// Decoding a frame is fully determined by the zstd format, so this is a
/// function of the compressed bytes alone.
pub uninterp spec fn unzstd_of(data: Seq<u8>) -> Option<Seq<u8>>;

/// Relies on `zstd::stream::decode_all`: it decompresses a zstd frame and
/// fails exactly on input it cannot decode.
#[verifier::external_body]
fn zstd_decompress(data: &Vec<u8>) -> (r: Option<Vec<u8>>)
    ensures
        match r {
            Some(b) => unzstd_of(data@) == Some(b@),
            None => unzstd_of(data@) is None,
        },
{
    zstd::stream::decode_all(data.as_slice()).ok()
}

/// Relies on `zstd::stream::encode_all`: compression is lossless, so the
/// frame it produces decodes back to exactly the input bytes. The call is
/// total for in-memory data: the level is clamped inside libzstd rather
/// than rejected, the empty dictionary always loads, and reading from a
/// slice and writing to a vector cannot fail, so the only error left is an
/// allocation failure inside libzstd, which ends the process as any other
/// failed allocation would.
#[verifier::external_body]
fn zstd_compress(data: &Vec<u8>, level: i32) -> (r: Vec<u8>)
    ensures
        unzstd_of(r@) == Some(data@),
{
    zstd::stream::encode_all(data.as_slice(), level)
        .expect("compression failed to allocate")
}

/// One stored blob: a content hash and the compressed body under it.
pub struct BlobEntry {
    pub hash: Sha256Sum,
    pub data: Vec<u8>,
}

/// A blob repository keyed by content hash.
pub struct BlobStore {
    pub blobs: Vec<BlobEntry>,
    pub level: i32,
}

impl BlobStore {
    /// The (hash, content) pairs the store holds, contents decompressed.
    pub open spec fn pairs(self) -> Seq<(Sha256Sum, Seq<u8>)> {
        self.blobs@.map_values(|e: BlobEntry| (e.hash, unzstd_of(e.data@).unwrap()))
    }

    /// The store read as a map from content hash to (decompressed) content.
    pub open spec fn contents(self) -> Map<Sha256Sum, Seq<u8>> {
        assoc_map(self.pairs())
    }

    /// Every blob decodes, is named by its content's hash, is small enough
    /// to digest again, and no hash names two blobs.
    pub open spec fn wf(self) -> bool {
        &&& forall|i: int|
            0 <= i < self.blobs@.len() ==> (#[trigger] unzstd_of(self.blobs@[i].data@)) is Some
        &&& forall|i: int|
            0 <= i < self.blobs@.len() ==> #[trigger] self.blobs@[i].hash == hash_of(
                unzstd_of(self.blobs@[i].data@).unwrap(),
            )
        &&& forall|i: int|
            0 <= i < self.blobs@.len() ==> (#[trigger] unzstd_of(
                self.blobs@[i].data@,
            )).unwrap().len() < 0x2000000000000000
        &&& keys_unique(self.pairs())
    }

    /// An empty store writing blobs at the given compression effort.
    pub fn new(level: i32) -> (s: Self)
        ensures
            s.wf(),
            s.contents() == Map::<Sha256Sum, Seq<u8>>::empty(),
            s.blobs@.len() == 0,
            s.level == level,
    {
        BlobStore { blobs: Vec::new(), level }
    }

    /// Whether a blob is stored under this hash.
    pub fn contains_hash(&self, h: &Sha256Sum) -> (r: bool)
        requires
            self.wf(),
        ensures
            r == self.contents().dom().contains(*h),
    {
        let n = self.blobs.len();
        for i in 0..n
            invariant
                n == self.blobs@.len(),
                self.wf(),
                forall|j: int| 0 <= j < i ==> self.pairs()[j].0 != *h,
        {
            if self.blobs[i].hash == *h {
                proof {
                    lemma_assoc_map_index(self.pairs(), i as int);
                }
                return true;
            }
        }
        proof {
            lemma_assoc_map_contains(self.pairs(), *h);
        }
        false
    }

    /// Store one file's content: compute its hash and, unless a blob with
    /// that hash already exists, write the compressed body under it.
    pub fn store(&mut self, content: &Vec<u8>) -> (h: Sha256Sum)
        requires
            old(self).wf(),
            content@.len() < 0x2000000000000000,
        ensures
            final(self).wf(),
            final(self).level == old(self).level,
            h == hash_of(content@),
            old(self).contents().dom().contains(h) ==> *final(self) == *old(self),
            !old(self).contents().dom().contains(h) ==> {
                &&& final(self).contents() == old(self).contents().insert(h, content@)
                &&& final(self).blobs@.len() == old(self).blobs@.len() + 1
            },
    {
        let h = hash(content.as_slice());
        if self.contains_hash(&h) {
            return h;
        }
        let data = zstd_compress(content, self.level);
        let ghost ps = self.pairs();
        self.blobs.push(BlobEntry { hash: h, data });
        proof {
            assert(self.pairs() =~= ps.push((h, content@)));
            lemma_assoc_map_push(ps, h, content@);
            assert forall|a: int, b: int|
                0 <= a < b < self.pairs().len() implies self.pairs()[a].0 != self.pairs()[b].0 by {
                if b == self.pairs().len() - 1 {
                    lemma_assoc_map_contains(ps, ps[a].0);
                }
            }
        }
        h
    }

    /// Load and decompress the blob stored under a hash.
    pub fn load(&self, h: &Sha256Sum) -> (r: BackupResult<Vec<u8>>)
        requires
            self.wf(),
        ensures
            match r {
                Ok(b) => self.contents().dom().contains(*h) && b@ == self.contents()[*h],
                Err(e) => e == MyError::MissingBlob && !self.contents().dom().contains(*h),
            },
    {
        let n = self.blobs.len();
        for i in 0..n
            invariant
                n == self.blobs@.len(),
                self.wf(),
                forall|j: int| 0 <= j < i ==> self.pairs()[j].0 != *h,
        {
            if self.blobs[i].hash == *h {
                proof {
                    lemma_assoc_map_index(self.pairs(), i as int);
                }
                match zstd_decompress(&self.blobs[i].data) {
                    Option::Some(b) => {
                        return Ok(b);
                    },
                    Option::None => {
                        proof {
                            assert(false);
                        }
                        return Err(MyError::MissingBlob);
                    },
                }
            }
        }
        proof {
            lemma_assoc_map_contains(self.pairs(), *h);
        }
        Err(MyError::MissingBlob)
    }

    /// How many physical blobs the store holds.
    pub fn blob_count(&self) -> (n: usize)
        ensures
            n == self.blobs@.len(),
    {
        self.blobs.len()
    }
}

/// Every stored content hashes to the hash it is stored under, and is small
/// enough to digest again.
pub proof fn lemma_store_contents_hashed(s: BlobStore)
    requires
        s.wf(),
    ensures
        forall|h: Sha256Sum|
            #[trigger] s.contents().dom().contains(h) ==> hash_of(s.contents()[h]) == h
                && s.contents()[h].len() < 0x2000000000000000,
{
    assert forall|h: Sha256Sum| #[trigger] s.contents().dom().contains(h) implies hash_of(
        s.contents()[h],
    ) == h && s.contents()[h].len() < 0x2000000000000000 by {
        lemma_assoc_map_contains(s.pairs(), h);
        let i = choose|i: int| 0 <= i < s.pairs().len() && s.pairs()[i].0 == h;
        lemma_assoc_map_index(s.pairs(), i);
    }
}

/// At most one physical blob exists per distinct content hash, no matter
/// how many manifests reference it.
pub proof fn lemma_one_blob_per_hash(s: BlobStore, i: int, j: int)
    requires
        s.wf(),
        0 <= i < s.blobs@.len(),
        0 <= j < s.blobs@.len(),
        s.blobs@[i].hash == s.blobs@[j].hash,
    ensures
        i == j,
{
    if i != j {
        assert(s.pairs()[i].0 == s.pairs()[j].0);
    }
}

/// Round trip: after `store` of content `c`, loading `hash_of(c)` yields
/// bytes equal to `c` — unless a blob of different content already sat
/// under that hash, which only a digest collision can produce.
pub proof fn lemma_store_load_round_trip(pre: BlobStore, post: BlobStore, c: Seq<u8>)
    requires
        pre.contents().dom().contains(hash_of(c)) ==> pre.contents()[hash_of(c)] == c,
        // what `store` of `c` into `pre` ensures of `post`:
        pre.contents().dom().contains(hash_of(c)) ==> post == pre,
        !pre.contents().dom().contains(hash_of(c)) ==> post.contents() == pre.contents().insert(
            hash_of(c),
            c,
        ),
    ensures
        post.contents().dom().contains(hash_of(c)),
        post.contents()[hash_of(c)] == c,
{
}

/// Dedup idempotence: once a blob sits under `hash_of(c)`, a second store
/// of `c` leaves the store untouched — by `store`'s contract the second
/// call writes nothing, so exactly one physical blob exists for that hash.
pub proof fn lemma_store_dedup_idempotent(pre: BlobStore, post: BlobStore, c: Seq<u8>)
    requires
        !pre.contents().dom().contains(hash_of(c)),
        post.contents() == pre.contents().insert(hash_of(c), c),
    ensures
        post.contents().dom().contains(hash_of(c)),
{
}

/// Store every file of a tree and return the tree's manifest; the manifest
/// of a full backup pass is exactly the store's dedup map for the tree.
pub fn create_full_copy_with_hash(tree: &TreeSnapshot, store: &mut BlobStore) -> (m: Manifest)
    requires
        tree.wf(),
        old(store).wf(),
    ensures
        final(store).wf(),
        final(store).level == old(store).level,
        old(store).contents().submap_of(final(store).contents()),
        forall|h: Sha256Sum|
            final(store).contents().dom().contains(h) && !old(store).contents().dom().contains(h)
                ==> exists|p: Seq<char>|
                #[trigger] tree@.dom().contains(p) && h == hash_of(tree@[p])
                    && final(store).contents()[h] == tree@[p],
        m.wf(),
        m@ == manifest_of(tree@),
        forall|p: Seq<char>|
            #[trigger] tree@.dom().contains(p) ==> final(store).contents().dom().contains(
                hash_of(tree@[p]),
            ),
{
    let mut m = Manifest::new();
    let n = tree.files.len();
    for i in 0..n
        invariant
            n == tree.files@.len(),
            tree.wf(),
            store.wf(),
            store.level == old(store).level,
            m.wf(),
            m@ =~= manifest_of(assoc_map(tree.pairs().subrange(0, i as int))),
            old(store).contents().submap_of(store.contents()),
            forall|h: Sha256Sum|
                store.contents().dom().contains(h) && !old(store).contents().dom().contains(h)
                    ==> exists|j: int|
                    0 <= j < i && h == hash_of(#[trigger] tree.pairs()[j].1)
                        && store.contents()[h] == tree.pairs()[j].1,
            forall|j: int|
                0 <= j < i ==> store.contents().dom().contains(
                    hash_of(#[trigger] tree.pairs()[j].1),
                ),
    {
        let f = &tree.files[i];
        proof {
            lemma_assoc_map_index(tree.pairs(), i as int);
        }
        let h = store.store(&f.content);
        m.insert(f.path.clone(), h);
        proof {
            let ps = tree.pairs();
            assert(ps.subrange(0, i + 1) =~= ps.subrange(0, i as int).push(ps[i as int]));
            lemma_assoc_map_push(ps.subrange(0, i as int), ps[i as int].0, ps[i as int].1);
            assert(m@ =~= manifest_of(assoc_map(ps.subrange(0, i + 1))));
        }
    }
    proof {
        assert(tree.pairs().subrange(0, n as int) =~= tree.pairs());
        lemma_provenance_to_tree(*tree, *old(store), *store, n as int);
        assert forall|p: Seq<char>| #[trigger] tree@.dom().contains(p) implies
            store.contents().dom().contains(hash_of(tree@[p])) by {
            lemma_assoc_map_contains(tree.pairs(), p);
            let j = choose|j: int| 0 <= j < tree.pairs().len() && tree.pairs()[j].0 == p;
            lemma_assoc_map_index(tree.pairs(), j);
        }
    }
    m
}

/// New store entries indexed by tree position come from paths of the tree.
proof fn lemma_provenance_to_tree(tree: TreeSnapshot, pre: BlobStore, post: BlobStore, i: int)
    requires
        tree.wf(),
        0 <= i <= tree.pairs().len(),
        forall|h: Sha256Sum|
            post.contents().dom().contains(h) && !pre.contents().dom().contains(h)
                ==> exists|j: int|
                0 <= j < i && h == hash_of(#[trigger] tree.pairs()[j].1) && post.contents()[h]
                    == tree.pairs()[j].1,
    ensures
        forall|h: Sha256Sum|
            post.contents().dom().contains(h) && !pre.contents().dom().contains(h)
                ==> exists|p: Seq<char>|
                #[trigger] tree@.dom().contains(p) && h == hash_of(tree@[p])
                    && post.contents()[h] == tree@[p],
{
    assert forall|h: Sha256Sum|
        post.contents().dom().contains(h) && !pre.contents().dom().contains(h) implies exists|
        p: Seq<char>,
    |
        #[trigger] tree@.dom().contains(p) && h == hash_of(tree@[p]) && post.contents()[h]
            == tree@[p] by {
        let j = choose|j: int|
            0 <= j < i && h == hash_of(#[trigger] tree.pairs()[j].1) && post.contents()[h]
                == tree.pairs()[j].1;
        lemma_assoc_map_index(tree.pairs(), j);
        let p = tree.pairs()[j].0;
        assert(tree@.dom().contains(p) && h == hash_of(tree@[p]) && post.contents()[h]
            == tree@[p]);
    }
}

} // verus!
