//! Saves and their version chains.
//!
//! A save owns a backward-linked chain of versions, newest first. A full
//! version's manifest is self-sufficient; an incremental version stores
//! only changed files but still carries a complete merged manifest, so a
//! restore replays the chosen version's own manifest against the store.

use vstd::prelude::*;

use vstd::string::StringExecFns;

use crate::assoc::{lemma_assoc_map_contains, lemma_assoc_map_index};
use crate::backup::hash::{hash, hash_of, Sha256Sum};
use crate::backup::manifest::{manifest_of, path_changed, Manifest, TreeSnapshot};
use crate::backup::store::{create_full_copy_with_hash, lemma_store_contents_hashed, BlobStore};
use crate::error::{BackupResult, MyError};
use crate::utils::{file_name_of, final_segment};

verus! {

/// How a version was taken. `Default` is the wire value that leaves the
/// choice to the engine, which takes a full version.
#[derive(Debug, Clone, Copy, PartialEq, Eq, Structural)]
pub enum MinecraftSaveVersionType {
    Full,
    IncrementalFile,
    Snapshot,
    Default,
}

/// One point-in-time backup of a save, linked to its predecessor.
pub struct MinecraftSaveVersion {
    pub version_type: MinecraftSaveVersionType,
    pub description: String,
    /// Creation timestamp; together with the save id it addresses the
    /// version's persisted manifest, so it is kept distinct within a chain.
    pub timestamp: u64,
    pub manifest: Manifest,
    /// The immediately preceding version: a strictly backward, exclusively
    /// owned chain, never cyclic, never shared.
    pub prev: Option<Box<MinecraftSaveVersion>>,
}

/// The manifest of an incremental version: the previous manifest with every
/// current file's entry overwritten by its current hash. Entries for files
/// no longer present are retained (deletions are not modelled).
pub open spec fn merged_manifest(
    prev_m: Map<Seq<char>, Sha256Sum>,
    t: Map<Seq<char>, Seq<u8>>,
) -> Map<Seq<char>, Sha256Sum> {
    prev_m.union_prefer_right(manifest_of(t))
}

/// What a full backup pass leaves behind: a self-sufficient manifest of the
/// tree, every file's blob present in the store.
pub open spec fn full_pass_done(
    v: MinecraftSaveVersion,
    t: Map<Seq<char>, Seq<u8>>,
    s: Map<Sha256Sum, Seq<u8>>,
) -> bool {
    &&& v.version_type is Full
    &&& v.manifest@ == manifest_of(t)
    &&& forall|p: Seq<char>| #[trigger] t.dom().contains(p) ==> s.dom().contains(hash_of(t[p]))
}

/// What an incremental pass against `prev_m` leaves behind: the merged
/// manifest, with a blob present for every changed file.
pub open spec fn incremental_pass_done(
    v: MinecraftSaveVersion,
    prev_m: Map<Seq<char>, Sha256Sum>,
    t: Map<Seq<char>, Seq<u8>>,
    s: Map<Sha256Sum, Seq<u8>>,
) -> bool {
    &&& v.version_type is IncrementalFile
    &&& v.manifest@ == merged_manifest(prev_m, t)
    &&& forall|p: Seq<char>|
        #[trigger] t.dom().contains(p) && path_changed(t, prev_m, p) ==> s.dom().contains(
            hash_of(t[p]),
        )
}

/// Blobs added to `s_pre` by an incremental pass hold content of the
/// tree's new or changed files only; nothing is stored for an unchanged
/// file.
pub open spec fn new_blobs_from_changed(
    s_pre: Map<Sha256Sum, Seq<u8>>,
    s_post: Map<Sha256Sum, Seq<u8>>,
    t: Map<Seq<char>, Seq<u8>>,
    prev_m: Map<Seq<char>, Sha256Sum>,
) -> bool {
    forall|h: Sha256Sum|
        s_post.dom().contains(h) && !s_pre.dom().contains(h) ==> exists|p: Seq<char>|
            #[trigger] t.dom().contains(p) && path_changed(t, prev_m, p) && h == hash_of(t[p])
                && s_post[h] == t[p]
}

/// Blobs added to `s_pre` by a backup pass hold content of the tree.
pub open spec fn new_blobs_from_tree(
    s_pre: Map<Sha256Sum, Seq<u8>>,
    s_post: Map<Sha256Sum, Seq<u8>>,
    t: Map<Seq<char>, Seq<u8>>,
) -> bool {
    forall|h: Sha256Sum|
        s_post.dom().contains(h) && !s_pre.dom().contains(h) ==> exists|p: Seq<char>|
            #[trigger] t.dom().contains(p) && h == hash_of(t[p]) && s_post[h] == t[p]
}

impl MinecraftSaveVersion {
    /// Every manifest in the chain is well formed.
    pub open spec fn wf(self) -> bool
        decreases self,
    {
        &&& self.manifest.wf()
        &&& match self.prev {
            Some(p) => p.wf(),
            None => true,
        }
    }

    /// Whether the chain from here backward reaches a full version.
    pub open spec fn has_full_base(self) -> bool
        decreases self,
    {
        self.version_type is Full || match self.prev {
            Some(p) => p.has_full_base(),
            None => false,
        }
    }

    /// Walk the chain backward looking for a full version.
    pub fn has_full_ancestor(&self) -> (r: bool)
        ensures
            r == self.has_full_base(),
        decreases *self,
    {
        match self.version_type {
            MinecraftSaveVersionType::Full => true,
            _ => match &self.prev {
                Some(p) => p.has_full_ancestor(),
                None => false,
            },
        }
    }

    /// Create a version of `tree`, writing new blobs into `store`.
    ///
    /// A full (or default) version stores every file; an incremental
    /// version stores only files that are new or changed against the
    /// previous version's manifest, and falls back to full semantics when
    /// there is no previous version. The one failure is asking for a
    /// snapshot, a kind this engine does not take, which is rejected rather
    /// than reinterpreted; the previous version is then handed back beside
    /// the error, so the caller can restore it where it came from.
    pub fn create(
        version_type: MinecraftSaveVersionType,
        tree: &TreeSnapshot,
        prev: Option<Box<MinecraftSaveVersion>>,
        description: String,
        now: u64,
        store: &mut BlobStore,
    ) -> (r: Result<MinecraftSaveVersion, (MyError, Option<Box<MinecraftSaveVersion>>)>)
        requires
            tree.wf(),
            old(store).wf(),
            prev matches Some(p) ==> p.wf(),
        ensures
            final(store).wf(),
            final(store).level == old(store).level,
            old(store).contents().submap_of(final(store).contents()),
            new_blobs_from_tree(old(store).contents(), final(store).contents(), tree@),
            match r {
                Ok(v) => {
                    &&& v.wf()
                    &&& v.description == description
                    &&& v.prev == prev
                    &&& v.timestamp >= now
                    &&& (prev matches Some(p) ==> v.timestamp >= p.timestamp && (p.timestamp
                        < u64::MAX ==> v.timestamp > p.timestamp))
                    &&& (prev is None ==> v.timestamp == now)
                    &&& match version_type {
                        MinecraftSaveVersionType::IncrementalFile => match prev {
                            Some(p) => incremental_pass_done(
                                v,
                                p.manifest@,
                                tree@,
                                final(store).contents(),
                            ) && new_blobs_from_changed(
                                old(store).contents(),
                                final(store).contents(),
                                tree@,
                                p.manifest@,
                            ),
                            None => full_pass_done(v, tree@, final(store).contents()),
                        },
                        MinecraftSaveVersionType::Full => full_pass_done(
                            v,
                            tree@,
                            final(store).contents(),
                        ),
                        MinecraftSaveVersionType::Default => full_pass_done(
                            v,
                            tree@,
                            final(store).contents(),
                        ),
                        MinecraftSaveVersionType::Snapshot => false,
                    }
                },
                Err((e, back)) => {
                    &&& back == prev
                    &&& e is IllegalArgument
                    &&& *final(store) == *old(store)
                },
            },
            r is Err <==> version_type is Snapshot,
    {
        if matches!(version_type, MinecraftSaveVersionType::Snapshot) {
            return Err(
                (
                    MyError::IllegalArgument {
                        name: "version_type".to_owned(),
                        value: "snapshot".to_owned(),
                        expected: "full, incremental or default".to_owned(),
                    },
                    prev,
                ),
            );
        }
        let incremental = matches!(version_type, MinecraftSaveVersionType::IncrementalFile)
            && prev.is_some();
        let manifest = if incremental {
            match &prev {
                Some(p) => store_changed_and_merge(tree, &p.manifest, store),
                None => {
                    proof {
                        assert(false);
                    }
                    create_full_copy_with_hash(tree, store)
                },
            }
        } else {
            create_full_copy_with_hash(tree, store)
        };
        let timestamp = match &prev {
            Some(p) => next_timestamp(p.timestamp, now),
            None => now,
        };
        Ok(
            MinecraftSaveVersion {
                version_type: if incremental {
                    MinecraftSaveVersionType::IncrementalFile
                } else {
                    MinecraftSaveVersionType::Full
                },
                description,
                timestamp,
                manifest,
                prev,
            },
        )
    }

    /// Reconstruct the tree a version describes, loading every manifest
    /// entry's blob from the store. The chain is checked defensively for a
    /// full base even though the version's own manifest is complete.
    pub fn recover(&self, store: &BlobStore) -> (r: BackupResult<TreeSnapshot>)
        requires
            self.wf(),
            store.wf(),
        ensures
            match r {
                Ok(t) => {
                    &&& self.has_full_base()
                    &&& t.wf()
                    &&& t@.dom() == self.manifest@.dom()
                    &&& forall|p: Seq<char>|
                        #[trigger] self.manifest@.dom().contains(p)
                            ==> store.contents().dom().contains(self.manifest@[p]) && t@[p]
                            == store.contents()[self.manifest@[p]]
                },
                Err(e) => {
                    &&& (e is MissingAncestor <==> !self.has_full_base())
                    &&& (e is MissingAncestor || e is MissingBlob)
                    &&& (e is MissingBlob ==> exists|p: Seq<char>|
                        #[trigger] self.manifest@.dom().contains(p)
                            && !store.contents().dom().contains(self.manifest@[p]))
                },
            },
            r is Ok <==> (self.has_full_base() && forall|p: Seq<char>|
                #[trigger] self.manifest@.dom().contains(p) ==> store.contents().dom().contains(
                    self.manifest@[p],
                )),
    {
        if !self.has_full_ancestor() {
            return Err(MyError::MissingAncestor);
        }
        proof {
            lemma_store_contents_hashed(*store);
        }
        let mut t = TreeSnapshot::new();
        let n = self.manifest.entries.len();
        for i in 0..n
            invariant
                n == self.manifest.entries@.len(),
                self.wf(),
                self.has_full_base(),
                store.wf(),
                t.wf(),
                forall|p: Seq<char>|
                    #[trigger] t@.dom().contains(p) ==> self.manifest@.dom().contains(p)
                        && store.contents().dom().contains(self.manifest@[p]) && t@[p]
                        == store.contents()[self.manifest@[p]],
                forall|j: int|
                    0 <= j < i ==> t@.dom().contains(#[trigger] self.manifest.pairs()[j].0),
                forall|p: Seq<char>|
                    #[trigger] t@.dom().contains(p) ==> exists|j: int|
                        0 <= j < i && #[trigger] self.manifest.pairs()[j].0 == p,
        {
            let e = &self.manifest.entries[i];
            proof {
                lemma_assoc_map_index(self.manifest.pairs(), i as int);
                lemma_store_contents_hashed(*store);
            }
            let content = match store.load(&e.hash) {
                Ok(c) => c,
                Err(_) => {
                    proof {
                        assert(self.manifest@.dom().contains(e.path@));
                        assert(self.manifest@[e.path@] == e.hash);
                    }
                    return Err(MyError::MissingBlob);
                },
            };
            let ghost t0 = t;
            let added = t.add_file(e.path.clone(), content);
            proof {
                if !added {
                    let j = choose|j: int|
                        0 <= j < i && #[trigger] self.manifest.pairs()[j].0 == e.path@;
                    assert(self.manifest.pairs()[j].0 == self.manifest.pairs()[i as int].0);
                    assert(false);
                }
                assert forall|p: Seq<char>| #[trigger] t@.dom().contains(p) implies exists|j: int|
                    0 <= j < i + 1 && #[trigger] self.manifest.pairs()[j].0 == p by {
                    if p == e.path@ {
                        assert(self.manifest.pairs()[i as int].0 == p);
                    } else {
                        assert(t0@.dom().contains(p));
                        let j = choose|j: int|
                            0 <= j < i && #[trigger] self.manifest.pairs()[j].0 == p;
                        assert(0 <= j < i + 1 && self.manifest.pairs()[j].0 == p);
                    }
                }
            }
        }
        proof {
            assert forall|p: Seq<char>| #[trigger] self.manifest@.dom().contains(p) implies
                t@.dom().contains(p) by {
                lemma_assoc_map_contains(self.manifest.pairs(), p);
            }
            assert(t@.dom() =~= self.manifest@.dom());
        }
        Ok(t)
    }


    /// The timestamps of the chain, newest first.
    pub open spec fn chain_timestamps(self) -> Seq<u64>
        decreases self,
    {
        seq![self.timestamp] + match self.prev {
            Some(p) => p.chain_timestamps(),
            None => Seq::empty(),
        }
    }

    /// List the chain's version timestamps, newest first; together with the
    /// save id each names one version's stored metadata.
    pub fn version_timestamps(&self) -> (r: Vec<u64>)
        ensures
            r@ == self.chain_timestamps(),
        decreases *self,
    {
        let mut r: Vec<u64> = Vec::new();
        r.push(self.timestamp);
        match &self.prev {
            Some(p) => {
                let mut rest = p.version_timestamps();
                r.append(&mut rest);
            },
            None => (),
        }
        proof {
            assert(r@ =~= self.chain_timestamps());
        }
        r
    }

    /// Select the chain's version with the given timestamp, if any.
    pub fn find_version(&self, timestamp: u64) -> (r: Option<&MinecraftSaveVersion>)
        requires
            self.wf(),
        ensures
            match r {
                Some(v) => v.timestamp == timestamp && v.wf()
                    && self.chain_timestamps().contains(timestamp),
                None => !self.chain_timestamps().contains(timestamp),
            },
        decreases *self,
    {
        if self.timestamp == timestamp {
            proof {
                assert(self.chain_timestamps()[0] == timestamp);
            }
            return Some(self);
        }
        match &self.prev {
            Some(p) => {
                let r = p.find_version(timestamp);
                proof {
                    if p.chain_timestamps().contains(timestamp) {
                        let i = choose|i: int|
                            0 <= i < p.chain_timestamps().len() && p.chain_timestamps()[i]
                                == timestamp;
                        assert(self.chain_timestamps()[i + 1] == timestamp);
                    }
                    if self.chain_timestamps().contains(timestamp) {
                        let i = choose|i: int|
                            0 <= i < self.chain_timestamps().len() && self.chain_timestamps()[i]
                                == timestamp;
                        assert(i > 0);
                        assert(p.chain_timestamps()[i - 1] == timestamp);
                    }
                }
                r
            },
            None => {
                proof {
                    assert(self.chain_timestamps().len() == 1);
                }
                None
            },
        }
    }

    /// Flatten this version into a self-sufficient full version with the
    /// same manifest and no ancestors, by recovering it and taking a full
    /// version of the result. The store already holds every blob the
    /// manifest references, so nothing new is written, and the merge
    /// succeeds exactly when the version recovers.
    pub fn merge(self, store: &mut BlobStore, now: u64) -> (r: BackupResult<
        MinecraftSaveVersion,
    >)
        requires
            self.wf(),
            old(store).wf(),
        ensures
            final(store).wf(),
            final(store).level == old(store).level,
            // the store already holds every referenced blob, so flattening
            // writes nothing
            final(store).contents() == old(store).contents(),
            r is Ok <==> (self.has_full_base() && forall|p: Seq<char>|
                #[trigger] self.manifest@.dom().contains(p)
                    ==> old(store).contents().dom().contains(self.manifest@[p])),
            match r {
                Ok(v) => {
                    &&& v.wf()
                    &&& v.version_type is Full
                    &&& v.prev is None
                    &&& v.manifest@ == self.manifest@
                    &&& v.timestamp == now
                    &&& v.description@ == "Merged from "@ + self.description@
                        + " and previous versions"@
                },
                Err(e) => {
                    &&& (e is MissingAncestor <==> !self.has_full_base())
                    &&& (e is MissingAncestor || e is MissingBlob)
                    &&& (e is MissingBlob ==> exists|p: Seq<char>|
                        #[trigger] self.manifest@.dom().contains(p)
                            && !old(store).contents().dom().contains(self.manifest@[p]))
                },
            },
    {
        let tree = match self.recover(store) {
            Ok(t) => t,
            Err(e) => {
                return Err(e);
            },
        };
        proof {
            lemma_store_contents_hashed(*store);
            assert(manifest_of(tree@) =~= self.manifest@);
        }
        let mut description = "Merged from ".to_owned();
        description.append(self.description.as_str());
        description.append(" and previous versions");
        let ghost pre = *store;
        let result = MinecraftSaveVersion::create(
            MinecraftSaveVersionType::Full,
            &tree,
            None,
            description,
            now,
            store,
        );
        proof {
            assert forall|h: Sha256Sum| #[trigger] store.contents().dom().contains(h) implies
                pre.contents().dom().contains(h) by {
                if !pre.contents().dom().contains(h) {
                    let p = choose|p: Seq<char>|
                        #[trigger] tree@.dom().contains(p) && h == hash_of(tree@[p])
                            && store.contents()[h] == tree@[p];
                    assert(tree@[p] == pre.contents()[self.manifest@[p]]);
                    assert(hash_of(pre.contents()[self.manifest@[p]]) == self.manifest@[p]);
                }
            }
            assert(store.contents().dom() =~= pre.contents().dom());
            assert(store.contents() =~= pre.contents());
        }
        match result {
            Ok(v) => Ok(v),
            Err((e, _)) => {
                proof {
                    assert(false);
                }
                Err(e)
            },
        }
    }
}

/// A timestamp for a new version: the clock where it moved past the
/// previous version's timestamp, the next count otherwise, so that two
/// versions of one chain never share a timestamp (until the counter space
/// is exhausted, where the timestamp saturates).
pub fn next_timestamp(last: u64, now: u64) -> (t: u64)
    ensures
        t >= now,
        t >= last,
        last < u64::MAX ==> t > last,
{
    if now > last {
        now
    } else if last < u64::MAX {
        last + 1
    } else {
        last
    }
}

/// Store the files of `tree` that are new or changed against `prev_m`, and
/// return `prev_m` with every current file's entry overwritten; nothing is
/// stored for an unchanged file.
fn store_changed_and_merge(tree: &TreeSnapshot, prev_m: &Manifest, store: &mut BlobStore) -> (m:
    Manifest)
    requires
        tree.wf(),
        prev_m.wf(),
        old(store).wf(),
    ensures
        final(store).wf(),
        final(store).level == old(store).level,
        old(store).contents().submap_of(final(store).contents()),
        new_blobs_from_changed(old(store).contents(), final(store).contents(), tree@, prev_m@),
        m.wf(),
        m@ == merged_manifest(prev_m@, tree@),
        forall|p: Seq<char>|
            #[trigger] tree@.dom().contains(p) && path_changed(tree@, prev_m@, p)
                ==> final(store).contents().dom().contains(hash_of(tree@[p])),
{
    let mut m = prev_m.duplicate();
    let n = tree.files.len();
    for i in 0..n
        invariant
            n == tree.files@.len(),
            tree.wf(),
            prev_m.wf(),
            store.wf(),
            store.level == old(store).level,
            m.wf(),
            m@ =~= merged_manifest(
                prev_m@,
                crate::assoc::assoc_map(tree.pairs().subrange(0, i as int)),
            ),
            old(store).contents().submap_of(store.contents()),
            forall|h: Sha256Sum|
                store.contents().dom().contains(h) && !old(store).contents().dom().contains(h)
                    ==> exists|j: int|
                    0 <= j < i && path_changed(tree@, prev_m@, #[trigger] tree.pairs()[j].0) && h
                        == hash_of(tree.pairs()[j].1) && store.contents()[h] == tree.pairs()[j].1,
            forall|j: int|
                0 <= j < i && path_changed(tree@, prev_m@, #[trigger] tree.pairs()[j].0)
                    ==> store.contents().dom().contains(hash_of(tree.pairs()[j].1)),
    {
        let f = &tree.files[i];
        proof {
            lemma_assoc_map_index(tree.pairs(), i as int);
        }
        let h = hash(f.content.as_slice());
        let changed = match prev_m.get(&f.path) {
            Option::None => true,
            Option::Some(ph) => !(ph.w0 == h.w0 && ph.w1 == h.w1 && ph.w2 == h.w2 && ph.w3
                == h.w3),
        };
        if changed {
            let _stored = store.store(&f.content);
        }
        m.insert(f.path.clone(), h);
        proof {
            let ps = tree.pairs();
            assert(ps.subrange(0, i + 1) =~= ps.subrange(0, i as int).push(ps[i as int]));
            crate::assoc::lemma_assoc_map_push(
                ps.subrange(0, i as int),
                ps[i as int].0,
                ps[i as int].1,
            );
            assert(m@ =~= merged_manifest(
                prev_m@,
                crate::assoc::assoc_map(ps.subrange(0, i + 1)),
            ));
        }
    }
    proof {
        assert(tree.pairs().subrange(0, n as int) =~= tree.pairs());
        lemma_changed_provenance(*tree, prev_m@, *old(store), *store, n as int);
        assert forall|p: Seq<char>|
            #[trigger] tree@.dom().contains(p) && path_changed(tree@, prev_m@, p) implies
            store.contents().dom().contains(hash_of(tree@[p])) by {
            lemma_assoc_map_contains(tree.pairs(), p);
            let j = choose|j: int| 0 <= j < tree.pairs().len() && tree.pairs()[j].0 == p;
            lemma_assoc_map_index(tree.pairs(), j);
        }
    }
    m
}

/// New store entries indexed by tree position come from changed paths.
proof fn lemma_changed_provenance(
    tree: TreeSnapshot,
    prev_m: Map<Seq<char>, Sha256Sum>,
    pre: BlobStore,
    post: BlobStore,
    i: int,
)
    requires
        tree.wf(),
        0 <= i <= tree.pairs().len(),
        forall|h: Sha256Sum|
            post.contents().dom().contains(h) && !pre.contents().dom().contains(h)
                ==> exists|j: int|
                0 <= j < i && path_changed(tree@, prev_m, #[trigger] tree.pairs()[j].0) && h
                    == hash_of(tree.pairs()[j].1) && post.contents()[h] == tree.pairs()[j].1,
    ensures
        new_blobs_from_changed(pre.contents(), post.contents(), tree@, prev_m),
{
    assert forall|h: Sha256Sum|
        post.contents().dom().contains(h) && !pre.contents().dom().contains(h) implies exists|
        p: Seq<char>,
    |
        #[trigger] tree@.dom().contains(p) && path_changed(tree@, prev_m, p) && h == hash_of(
            tree@[p],
        ) && post.contents()[h] == tree@[p] by {
        let j = choose|j: int|
            0 <= j < i && path_changed(tree@, prev_m, #[trigger] tree.pairs()[j].0) && h
                == hash_of(tree.pairs()[j].1) && post.contents()[h] == tree.pairs()[j].1;
        lemma_assoc_map_index(tree.pairs(), j);
        let p = tree.pairs()[j].0;
        assert(tree@.dom().contains(p) && path_changed(tree@, prev_m, p) && h == hash_of(tree@[p])
            && post.contents()[h] == tree@[p]);
    }
}

/// A tracked source directory and its version history.
pub struct MinecraftSave {
    pub id: String,
    pub name: String,
    pub description: String,
    /// The source path this save lives at.
    pub target: String,
    /// Exclusively owned pointer to the newest version, if any was taken.
    pub latest_version: Option<MinecraftSaveVersion>,
}

impl MinecraftSave {
    /// Whether the version chain, if any, is well formed.
    pub open spec fn wf(self) -> bool {
        match self.latest_version {
            Some(v) => v.wf(),
            None => true,
        }
    }

    /// A freshly discovered save: its display name is the final segment of
    /// its source path, and it has no version yet.
    pub fn create(id: String, source: &str) -> (s: Self)
        ensures
            s.wf(),
            s.id == id,
            s.name@ == final_segment(source@),
            s.description@.len() == 0,
            s.target@ == source@,
            s.latest_version is None,
    {
        MinecraftSave {
            id,
            name: file_name_of(source),
            description: String::new(),
            target: source.to_owned(),
            latest_version: None,
        }
    }
}

/// Recovering a full version of a tree reproduces the tree exactly: the
/// same path set with the same content. The hypotheses are what `create`
/// ensures of a full pass and what `recover` ensures of its result; digest
/// collisions — within the tree, or between the tree and blobs already
/// stored — are excluded, as the digest is collision-resistant.
pub proof fn lemma_full_recovery_exact(
    t: Map<Seq<char>, Seq<u8>>,
    s_pre: Map<Sha256Sum, Seq<u8>>,
    s_post: Map<Sha256Sum, Seq<u8>>,
    m: Map<Seq<char>, Sha256Sum>,
    rec: Map<Seq<char>, Seq<u8>>,
)
    requires
        // the digest is collision-resistant: no two files of the tree and
        // no already-stored blob carry the same hash with different content
        forall|p: Seq<char>|
            #[trigger] t.dom().contains(p) && s_pre.dom().contains(hash_of(t[p]))
                ==> s_pre[hash_of(t[p])] == t[p],
        forall|p: Seq<char>, q: Seq<char>|
            #[trigger] t.dom().contains(p) && #[trigger] t.dom().contains(q) && hash_of(t[p])
                == hash_of(t[q]) ==> t[p] == t[q],
        // what a full pass ensures
        m == manifest_of(t),
        s_pre.submap_of(s_post),
        forall|p: Seq<char>| #[trigger] t.dom().contains(p) ==> s_post.dom().contains(
            hash_of(t[p]),
        ),
        new_blobs_from_tree(s_pre, s_post, t),
        // what recovering the version ensures
        rec.dom() == m.dom(),
        forall|p: Seq<char>| #[trigger] m.dom().contains(p) ==> s_post.dom().contains(m[p])
            && rec[p] == s_post[m[p]],
    ensures
        rec == t,
{
    assert forall|p: Seq<char>| #[trigger] t.dom().contains(p) implies rec[p] == t[p] by {
        let h = hash_of(t[p]);
        assert(m.dom().contains(p) && m[p] == h);
        if s_pre.dom().contains(h) {
            assert(s_post[h] == s_pre[h]);
            assert(s_pre[h] == t[p]);
        } else {
            let q = choose|q: Seq<char>|
                #[trigger] t.dom().contains(q) && h == hash_of(t[q]) && s_post[h] == t[q];
            assert(t[q] == t[p]);
        }
    }
    assert(rec.dom() =~= t.dom());
    assert(rec =~= t);
}

/// With no deletions since the ancestor (every path the previous manifest
/// maps still exists in the tree), an incremental version's merged manifest
/// is exactly the manifest a full version of the same tree takes.
pub proof fn lemma_incremental_manifest_matches_full(
    prev_m: Map<Seq<char>, Sha256Sum>,
    t: Map<Seq<char>, Seq<u8>>,
)
    requires
        prev_m.dom().subset_of(t.dom()),
    ensures
        merged_manifest(prev_m, t) == manifest_of(t),
{
    assert(merged_manifest(prev_m, t) =~= manifest_of(t));
}

/// Recovery reads only the chosen version's manifest and the store, so
/// recovering an incremental version whose chain reaches a full base gives
/// the same tree as recovering an equivalent full version taken at the same
/// logical state — provided no file was deleted since the ancestor. The
/// hypotheses about `rec_inc` and `rec_full` are what `recover` ensures of
/// its result for the two versions.
pub proof fn lemma_incremental_recovery_matches_full(
    prev_m: Map<Seq<char>, Sha256Sum>,
    t: Map<Seq<char>, Seq<u8>>,
    s: Map<Sha256Sum, Seq<u8>>,
    rec_inc: Map<Seq<char>, Seq<u8>>,
    rec_full: Map<Seq<char>, Seq<u8>>,
)
    requires
        prev_m.dom().subset_of(t.dom()),
        rec_inc.dom() == merged_manifest(prev_m, t).dom(),
        forall|p: Seq<char>|
            #[trigger] merged_manifest(prev_m, t).dom().contains(p) ==> rec_inc[p] == s[
                merged_manifest(prev_m, t)[p]
            ],
        rec_full.dom() == manifest_of(t).dom(),
        forall|p: Seq<char>|
            #[trigger] manifest_of(t).dom().contains(p) ==> rec_full[p] == s[manifest_of(t)[p]],
    ensures
        rec_inc == rec_full,
{
    lemma_incremental_manifest_matches_full(prev_m, t);
    assert(rec_inc =~= rec_full);
}

} // verus!

