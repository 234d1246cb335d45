//! Tree snapshots and manifests.
//!
//! A tree snapshot is the set of regular files under a save's source root,
//! each with its tree-relative POSIX path and content. A manifest maps each
//! such path to its content hash; diffing a snapshot against a prior
//! manifest yields the paths whose content is new or changed.

use vstd::prelude::*;

use crate::assoc::{assoc_map, keys_unique, lemma_assoc_map_contains, lemma_assoc_map_index,
    lemma_assoc_map_len, lemma_assoc_map_push, lemma_assoc_map_update};
use crate::backup::hash::{hash, hash_of, Sha256Sum};

verus! {

/// One regular file of a tree snapshot.
pub struct TreeFile {
    pub path: String,
    pub content: Vec<u8>,
}

/// The files under a save's source root at one point in time, with
/// tree-relative paths; directories are not recorded.
pub struct TreeSnapshot {
    pub files: Vec<TreeFile>,
}

impl TreeSnapshot {
    /// The (path, content) pairs the snapshot holds.
    pub open spec fn pairs(self) -> Seq<(Seq<char>, Seq<u8>)> {
        self.files@.map_values(|f: TreeFile| (f.path@, f.content@))
    }

    /// The snapshot read as a map from path to content.
    pub open spec fn view(self) -> Map<Seq<char>, Seq<u8>> {
        assoc_map(self.pairs())
    }

    /// Paths are unique and every file is small enough to digest.
    pub open spec fn wf(self) -> bool {
        &&& keys_unique(self.pairs())
        &&& forall|i: int|
            0 <= i < self.files@.len() ==> #[trigger] self.files@[i].content@.len()
                < 0x2000000000000000
    }

    pub fn new() -> (t: Self)
        ensures
            t.wf(),
            t@ == Map::<Seq<char>, Seq<u8>>::empty(),
            t.files@.len() == 0,
    {
        TreeSnapshot { files: Vec::new() }
    }

    /// Add a file unless its path is already present.
    pub fn add_file(&mut self, path: String, content: Vec<u8>) -> (added: bool)
        requires
            old(self).wf(),
            content@.len() < 0x2000000000000000,
        ensures
            final(self).wf(),
            added == !old(self)@.dom().contains(path@),
            added ==> final(self)@ == old(self)@.insert(path@, content@),
            !added ==> *final(self) == *old(self),
    {
        if self.contains_path(&path) {
            return false;
        }
        let ghost ps = self.pairs();
        self.files.push(TreeFile { path, content });
        proof {
            assert(self.pairs() =~= ps.push((path@, content@)));
            lemma_assoc_map_push(ps, path@, content@);
            assert forall|i: int, j: int| 0 <= i < j < self.pairs().len() implies self.pairs()[i].0
                != self.pairs()[j].0 by {
                if j == self.pairs().len() - 1 {
                    lemma_assoc_map_contains(ps, ps[i].0);
                }
            }
        }
        true
    }

    /// Whether some file carries this path.
    pub fn contains_path(&self, path: &String) -> (r: bool)
        requires
            self.wf(),
        ensures
            r == self@.dom().contains(path@),
    {
        let n = self.files.len();
        for i in 0..n
            invariant
                n == self.files@.len(),
                self.wf(),
                forall|j: int| 0 <= j < i ==> self.pairs()[j].0 != path@,
        {
            if self.files[i].path.eq(path) {
                proof {
                    lemma_assoc_map_index(self.pairs(), i as int);
                }
                return true;
            }
        }
        proof {
            lemma_assoc_map_contains(self.pairs(), path@);
        }
        false
    }

    /// The content under a path, if any file carries it.
    pub fn get(&self, path: &String) -> (r: Option<&Vec<u8>>)
        requires
            self.wf(),
        ensures
            match r {
                Some(c) => self@.dom().contains(path@) && c@ == self@[path@],
                None => !self@.dom().contains(path@),
            },
    {
        let n = self.files.len();
        for i in 0..n
            invariant
                n == self.files@.len(),
                self.wf(),
                forall|j: int| 0 <= j < i ==> self.pairs()[j].0 != path@,
        {
            if self.files[i].path.eq(path) {
                proof {
                    lemma_assoc_map_index(self.pairs(), i as int);
                }
                return Some(&self.files[i].content);
            }
        }
        proof {
            lemma_assoc_map_contains(self.pairs(), path@);
        }
        None
    }
}

/// One manifest entry: a tree-relative path and its content hash.
pub struct ManifestEntry {
    pub path: String,
    pub hash: Sha256Sum,
}

/// A complete path-to-content-hash mapping for one version.
pub struct Manifest {
    pub entries: Vec<ManifestEntry>,
}

/// The manifest a tree denotes: every path mapped to its content's hash.
pub open spec fn manifest_of(t: Map<Seq<char>, Seq<u8>>) -> Map<Seq<char>, Sha256Sum> {
    t.map_values(|c: Seq<u8>| hash_of(c))
}

/// Whether `p` is new or changed in `t` with respect to manifest `m`.
pub open spec fn path_changed(
    t: Map<Seq<char>, Seq<u8>>,
    m: Map<Seq<char>, Sha256Sum>,
    p: Seq<char>,
) -> bool {
    t.dom().contains(p) && (!m.dom().contains(p) || m[p] != hash_of(t[p]))
}

/// Whether every file of `t` matches `m`.
pub open spec fn tree_matches(t: Map<Seq<char>, Seq<u8>>, m: Map<Seq<char>, Sha256Sum>) -> bool {
    forall|p: Seq<char>|
        #[trigger] t.dom().contains(p) ==> m.dom().contains(p) && m[p] == hash_of(t[p])
}

impl Manifest {
    /// The (path, hash) pairs the manifest holds.
    pub open spec fn pairs(self) -> Seq<(Seq<char>, Sha256Sum)> {
        self.entries@.map_values(|e: ManifestEntry| (e.path@, e.hash))
    }

    /// The manifest read as a map from path to content hash.
    pub open spec fn view(self) -> Map<Seq<char>, Sha256Sum> {
        assoc_map(self.pairs())
    }

    /// Paths are unique.
    pub open spec fn wf(self) -> bool {
        keys_unique(self.pairs())
    }

    pub fn new() -> (m: Self)
        ensures
            m.wf(),
            m@ == Map::<Seq<char>, Sha256Sum>::empty(),
            m.entries@.len() == 0,
    {
        Manifest { entries: Vec::new() }
    }

    /// How many paths the manifest maps.
    pub fn len(&self) -> (n: usize)
        requires
            self.wf(),
        ensures
            n == self@.dom().len(),
            n == self.entries@.len(),
    {
        proof {
            lemma_assoc_map_len(self.pairs());
        }
        self.entries.len()
    }

    /// The hash recorded for a path, if any.
    pub fn get(&self, path: &String) -> (r: Option<&Sha256Sum>)
        requires
            self.wf(),
        ensures
            match r {
                Some(h) => self@.dom().contains(path@) && *h == self@[path@],
                None => !self@.dom().contains(path@),
            },
    {
        let n = self.entries.len();
        for i in 0..n
            invariant
                n == self.entries@.len(),
                self.wf(),
                forall|j: int| 0 <= j < i ==> self.pairs()[j].0 != path@,
        {
            if self.entries[i].path.eq(path) {
                proof {
                    lemma_assoc_map_index(self.pairs(), i as int);
                }
                return Some(&self.entries[i].hash);
            }
        }
        proof {
            lemma_assoc_map_contains(self.pairs(), path@);
        }
        None
    }

    /// Record `h` for `path`, overwriting an earlier entry for the same path.
    pub fn insert(&mut self, path: String, h: Sha256Sum)
        requires
            old(self).wf(),
        ensures
            final(self).wf(),
            final(self)@ == old(self)@.insert(path@, h),
    {
        let ghost ps = self.pairs();
        let n = self.entries.len();
        for i in 0..n
            invariant
                n == self.entries@.len(),
                self.wf(),
                *self == *old(self),
                ps == self.pairs(),
                forall|j: int| 0 <= j < i ==> self.pairs()[j].0 != path@,
        {
            if self.entries[i].path.eq(&path) {
                self.entries.set(i, ManifestEntry { path, hash: h });
                proof {
                    assert(ps[i as int].0 == path@);
                    assert(self.pairs() =~~= ps.update(i as int, (ps[i as int].0, h)));
                    lemma_assoc_map_update(ps, i as int, h);
                    assert(old(self)@ == assoc_map(ps));
                    assert(self@ =~= old(self)@.insert(path@, h));
                    assert forall|a: int, b: int|
                        0 <= a < b < self.pairs().len() implies self.pairs()[a].0
                        != self.pairs()[b].0 by {
                        assert(ps[a].0 != ps[b].0);
                    }
                }
                return ;
            }
        }
        self.entries.push(ManifestEntry { path, hash: h });
        proof {
            assert(self.pairs() =~= ps.push((path@, h)));
            lemma_assoc_map_push(ps, path@, h);
            assert forall|a: int, b: int| 0 <= a < b < self.pairs().len() implies self.pairs()[a].0
                != self.pairs()[b].0 by {
                if b == self.pairs().len() - 1 {
                    lemma_assoc_map_contains(ps, ps[a].0);
                }
            }
        }
    }

    /// An exact copy, entry for entry.
    pub fn duplicate(&self) -> (r: Self)
        ensures
            r.entries@ == self.entries@,
            r@ == self@,
            r.wf() == self.wf(),
    {
        let mut entries: Vec<ManifestEntry> = Vec::new();
        let n = self.entries.len();
        for i in 0..n
            invariant
                n == self.entries@.len(),
                entries@ =~= self.entries@.subrange(0, i as int),
        {
            let e = &self.entries[i];
            entries.push(ManifestEntry { path: e.path.clone(), hash: e.hash });
            proof {
                assert(entries@ =~= self.entries@.subrange(0, i + 1));
            }
        }
        proof {
            assert(self.entries@.subrange(0, n as int) =~= self.entries@);
        }
        let r = Manifest { entries };
        proof {
            assert(r.pairs() =~= self.pairs());
        }
        r
    }
}

/// Build the manifest of a tree, hashing every file; nothing is written to
/// any store.
pub fn build_manifest(tree: &TreeSnapshot) -> (m: Manifest)
    requires
        tree.wf(),
    ensures
        m.wf(),
        m@ == manifest_of(tree@),
{
    let mut m = Manifest::new();
    let n = tree.files.len();
    for i in 0..n
        invariant
            n == tree.files@.len(),
            tree.wf(),
            m.wf(),
            m@ =~= manifest_of(assoc_map(tree.pairs().subrange(0, i as int))),
    {
        let f = &tree.files[i];
        let h = hash(f.content.as_slice());
        m.insert(f.path.clone(), h);
        proof {
            let ps = tree.pairs();
            assert(ps.subrange(0, i + 1) =~= ps.subrange(0, i as int).push(ps[i as int]));
            lemma_assoc_map_push(ps.subrange(0, i as int), ps[i as int].0, ps[i as int].1);
            assert(m@ =~= manifest_of(assoc_map(ps.subrange(0, i + 1))));
        }
    }
    proof {
        assert(tree.pairs().subrange(0, n as int) =~= tree.pairs());
    }
    m
}

/// The paths under `tree` whose content is new or changed with respect to
/// `prev`. Paths present in `prev` but absent from `tree` (deletions) are
/// not reported; an incremental manifest therefore keeps such stale entries,
/// which is safe for restoring but does not model deletions.
pub fn diff(tree: &TreeSnapshot, prev: &Manifest) -> (r: Vec<String>)
    requires
        tree.wf(),
        prev.wf(),
    ensures
        forall|p: Seq<char>| r.deep_view().contains(p) <==> path_changed(tree@, prev@, p),
        forall|k1: int, k2: int| 0 <= k1 < k2 < r@.len() ==> r@[k1]@ != r@[k2]@,
        r@.len() == 0 <==> tree_matches(tree@, prev@),
{
    let mut r: Vec<String> = Vec::new();
    let n = tree.files.len();
    let mut i: usize = 0;
    while i < n
        invariant
            i <= n,
            n == tree.files@.len(),
            tree.wf(),
            prev.wf(),
            forall|k: int|
                0 <= k < r.deep_view().len() ==> path_changed(
                    tree@,
                    prev@,
                    #[trigger] r.deep_view()[k],
                ),
            forall|k: int|
                #![trigger r.deep_view()[k]]
                0 <= k < r.deep_view().len() ==> exists|j: int|
                    0 <= j < i && #[trigger] tree.pairs()[j].0 == r.deep_view()[k],
            forall|k1: int, k2: int|
                0 <= k1 < k2 < r.deep_view().len() ==> r.deep_view()[k1] != r.deep_view()[k2],
            forall|j: int|
                0 <= j < i && path_changed(tree@, prev@, #[trigger] tree.pairs()[j].0)
                    ==> r.deep_view().contains(tree.pairs()[j].0),
        decreases n - i,
    {
        let f = &tree.files[i];
        proof {
            lemma_assoc_map_index(tree.pairs(), i as int);
        }
        let h = hash(f.content.as_slice());
        let changed = match prev.get(&f.path) {
            Option::None => true,
            Option::Some(ph) => !(ph.w0 == h.w0 && ph.w1 == h.w1 && ph.w2 == h.w2 && ph.w3
                == h.w3),
        };
        let ghost dv0 = r.deep_view();
        proof {
            assert(changed == path_changed(tree@, prev@, tree.pairs()[i as int].0));
        }
        let ghost iold: int = i as int;
        if changed {
            r.push(f.path.clone());
            proof {
                assert(r.deep_view() =~= dv0.push(f.path@));
                assert forall|k1: int, k2: int|
                    0 <= k1 < k2 < r.deep_view().len() implies r.deep_view()[k1]
                    != r.deep_view()[k2] by {
                    if k2 == r.deep_view().len() - 1 {
                        let j = choose|j: int|
                            0 <= j < i && #[trigger] tree.pairs()[j].0 == dv0[k1];
                        assert(tree.pairs()[j].0 != tree.pairs()[i as int].0);
                    }
                }
                assert forall|j: int|
                    0 <= j < i + 1 && path_changed(tree@, prev@, #[trigger] tree.pairs()[j].0)
                    implies r.deep_view().contains(tree.pairs()[j].0) by {
                    if j < i {
                        let k = choose|k: int|
                            0 <= k < dv0.len() && dv0[k] == tree.pairs()[j].0;
                        assert(r.deep_view()[k] == tree.pairs()[j].0);
                    } else {
                        assert(r.deep_view()[dv0.len() as int] == tree.pairs()[i as int].0);
                    }
                }
                assert forall|k: int| #![trigger r.deep_view()[k]]
                    0 <= k < r.deep_view().len() implies exists|j: int|
                    0 <= j < i + 1 && #[trigger] tree.pairs()[j].0 == r.deep_view()[k] by {
                    if k < dv0.len() {
                        let j = choose|j: int|
                            0 <= j < i && #[trigger] tree.pairs()[j].0 == dv0[k];
                        assert(tree.pairs()[j].0 == r.deep_view()[k]);
                    } else {
                        assert(tree.pairs()[i as int].0 == r.deep_view()[k]);
                    }
                }
            }
        } else {
            proof {
                assert forall|k: int| #![trigger r.deep_view()[k]]
                    0 <= k < r.deep_view().len() implies exists|j: int|
                    0 <= j < i + 1 && #[trigger] tree.pairs()[j].0 == r.deep_view()[k] by {
                    let j = choose|j: int|
                        0 <= j < i && #[trigger] tree.pairs()[j].0 == r.deep_view()[k];
                    assert(0 <= j < i + 1 && tree.pairs()[j].0 == r.deep_view()[k]);
                }
            }
        }
        i = i + 1;
    }
    proof {
        assert forall|p: Seq<char>| r.deep_view().contains(p) <==> path_changed(
            tree@,
            prev@,
            p,
        ) by {
            if r.deep_view().contains(p) {
                let k = choose|k: int| 0 <= k < r.deep_view().len() && r.deep_view()[k] == p;
                assert(path_changed(tree@, prev@, r.deep_view()[k]));
            }
            if path_changed(tree@, prev@, p) {
                lemma_assoc_map_contains(tree.pairs(), p);
                let j = choose|j: int| 0 <= j < tree.pairs().len() && tree.pairs()[j].0 == p;
                assert(path_changed(tree@, prev@, tree.pairs()[j].0));
                assert(r.deep_view().contains(tree.pairs()[j].0));
            }
        }
        assert forall|k1: int, k2: int| 0 <= k1 < k2 < r@.len() implies r@[k1]@ != r@[k2]@ by {
            assert(r.deep_view()[k1] != r.deep_view()[k2]);
        }
        if r@.len() == 0 {
            assert forall|p: Seq<char>| #[trigger] tree@.dom().contains(p) implies
                prev@.dom().contains(p) && prev@[p] == hash_of(tree@[p]) by {
                assert(!r.deep_view().contains(p));
            }
            assert(tree_matches(tree@, prev@));
        } else {
            let p = r.deep_view()[0];
            assert(r.deep_view().contains(p));
            assert(path_changed(tree@, prev@, p));
            assert(tree@.dom().contains(p));
            assert(!(prev@.dom().contains(p) && prev@[p] == hash_of(tree@[p])));
            assert(!tree_matches(tree@, prev@)) by {
                if tree_matches(tree@, prev@) {
                    assert(prev@.dom().contains(p) && prev@[p] == hash_of(tree@[p]));
                }
            }
        }
    }
    r
}

} // verus!
