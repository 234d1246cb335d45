//! The backup engine: content hashing and storage, manifests, version
//! chains, and the registries of tracked saves.

pub mod hash;
pub mod manifest;
pub mod save;
pub mod store;

use vstd::prelude::*;

use vstd::string::StringSliceAdditionalSpecFns;

use crate::assoc::{assoc_map, keys_unique, lemma_assoc_map_contains, lemma_assoc_map_index,
    lemma_assoc_map_push, lemma_assoc_map_update};
use crate::backup::hash::{hash, hash_of, hex_of_sum};
use crate::backup::save::{MinecraftSave, MinecraftSaveVersion};
use crate::error::{BackupResult, MyError};
use crate::utils::{file_name_of, final_segment, lemma_encode_utf8_len};

verus! {

/// Relies on `uuid::Uuid::new_v4` and its `Display` form: a fresh random
/// UUID rendered as 36 hyphenated hexadecimal characters. The value is
/// random; nothing is promised beyond its length.
#[verifier::external_body]
fn new_uuid_string() -> (r: String)
    ensures
        r@.len() == 36,
{
    uuid::Uuid::new_v4().to_string()
}

/// The registry after a save's newest-version pointer is replaced.
pub open spec fn with_latest(
    m: Map<Seq<char>, MinecraftSave>,
    id: Seq<char>,
    v: Option<MinecraftSaveVersion>,
) -> Map<Seq<char>, MinecraftSave> {
    m.insert(
        id,
        MinecraftSave {
            id: m[id].id,
            name: m[id].name,
            description: m[id].description,
            target: m[id].target,
            latest_version: v,
        },
    )
}

/// The registry of tracked saves, keyed by save id, with the scan roots it
/// watches and the source paths it has already seen.
pub struct MinecraftSaveCollection {
    pub scan_root: Vec<String>,
    pub scanned_saves: Vec<String>,
    pub saves: Vec<MinecraftSave>,
}

impl MinecraftSaveCollection {
    /// The (id, save) pairs the registry holds.
    pub open spec fn pairs(self) -> Seq<(Seq<char>, MinecraftSave)> {
        self.saves@.map_values(|s: MinecraftSave| (s.id@, s))
    }

    /// The registry read as a map from save id to save.
    pub open spec fn view(self) -> Map<Seq<char>, MinecraftSave> {
        assoc_map(self.pairs())
    }

    /// Ids are unique and every save's version chain is well formed.
    pub open spec fn wf(self) -> bool {
        &&& keys_unique(self.pairs())
        &&& forall|i: int| 0 <= i < self.saves@.len() ==> (#[trigger] self.saves@[i]).wf()
    }

    /// An empty registry.
    pub fn new() -> (c: Self)
        ensures
            c.wf(),
            c@ == Map::<Seq<char>, MinecraftSave>::empty(),
            c.scan_root@.len() == 0,
            c.scanned_saves@.len() == 0,
            c.saves@.len() == 0,
    {
        MinecraftSaveCollection {
            scan_root: Vec::new(),
            scanned_saves: Vec::new(),
            saves: Vec::new(),
        }
    }

    fn index_of(&self, id: &String) -> (r: Option<usize>)
        requires
            self.wf(),
        ensures
            match r {
                Some(i) => i < self.saves@.len() && self.pairs()[i as int].0 == id@
                    && self@.dom().contains(id@),
                None => !self@.dom().contains(id@),
            },
    {
        let n = self.saves.len();
        for i in 0..n
            invariant
                n == self.saves@.len(),
                self.wf(),
                forall|j: int| 0 <= j < i ==> self.pairs()[j].0 != id@,
        {
            if self.saves[i].id.eq(id) {
                proof {
                    lemma_assoc_map_index(self.pairs(), i as int);
                }
                return Some(i);
            }
        }
        proof {
            lemma_assoc_map_contains(self.pairs(), id@);
        }
        None
    }

    /// The save registered under an id, if any.
    pub fn get(&self, id: &String) -> (r: Option<&MinecraftSave>)
        requires
            self.wf(),
        ensures
            match r {
                Some(s) => self@.dom().contains(id@) && *s == self@[id@],
                None => !self@.dom().contains(id@),
            },
    {
        match self.index_of(id) {
            Some(i) => {
                proof {
                    lemma_assoc_map_index(self.pairs(), i as int);
                }
                Some(&self.saves[i])
            },
            None => None,
        }
    }

    /// All tracked saves, in no significant order.
    pub fn list(&self) -> (r: &Vec<MinecraftSave>)
        ensures
            r@ == self.saves@,
    {
        &self.saves
    }

    /// Register a save, replacing any save already under its id.
    pub fn upsert(&mut self, save: MinecraftSave)
        requires
            old(self).wf(),
            save.wf(),
        ensures
            final(self).wf(),
            final(self)@ == old(self)@.insert(save.id@, save),
            final(self).scan_root@ == old(self).scan_root@,
            final(self).scanned_saves@ == old(self).scanned_saves@,
    {
        let ghost ps = self.pairs();
        match self.index_of(&save.id) {
            Some(i) => {
                let ghost sid = save.id@;
                self.saves.set(i, save);
                proof {
                    assert(self.pairs() =~~= ps.update(i as int, (ps[i as int].0, self.saves@[
                        i as int
                    ])));
                    lemma_assoc_map_update(ps, i as int, self.saves@[i as int]);
                    assert(self@ =~= old(self)@.insert(sid, self.saves@[i as int]));
                    assert forall|a: int, b: int|
                        0 <= a < b < self.pairs().len() implies self.pairs()[a].0
                        != self.pairs()[b].0 by {
                        assert(ps[a].0 != ps[b].0);
                    }
                }
            },
            None => {
                let ghost sid = save.id@;
                let ghost sv = save;
                self.saves.push(save);
                proof {
                    assert(self.pairs() =~~= ps.push((sid, sv)));
                    lemma_assoc_map_push(ps, sid, sv);
                    assert forall|a: int, b: int|
                        0 <= a < b < self.pairs().len() implies self.pairs()[a].0
                        != self.pairs()[b].0 by {
                        if b == self.pairs().len() - 1 {
                            lemma_assoc_map_contains(ps, ps[a].0);
                        }
                    }
                }
            },
        }
    }

    /// Take the newest version out of a save, leaving the save without one;
    /// the read side of the read-previous / install-new critical section.
    /// Fails, mutating nothing, when the id is unknown.
    pub fn take_latest_version(&mut self, id: &String) -> (r: BackupResult<
        Option<MinecraftSaveVersion>,
    >)
        requires
            old(self).wf(),
        ensures
            final(self).wf(),
            final(self).scan_root@ == old(self).scan_root@,
            final(self).scanned_saves@ == old(self).scanned_saves@,
            match r {
                Ok(prev) => {
                    &&& old(self)@.dom().contains(id@)
                    &&& prev == old(self)@[id@].latest_version
                    &&& (prev matches Some(v) ==> v.wf())
                    &&& final(self)@ == with_latest(old(self)@, id@, None)
                },
                Err(e) => {
                    &&& !old(self)@.dom().contains(id@)
                    &&& *final(self) == *old(self)
                    &&& e matches MyError::IllegalArgument { name, value, expected } && name@
                        == "id"@ && value@ == id@ && expected@ == "a registered save id"@
                },
            },
    {
        match self.index_of(id) {
            None => Err(
                MyError::IllegalArgument {
                    name: "id".to_owned(),
                    value: id.clone(),
                    expected: "a registered save id".to_owned(),
                },
            ),
            Some(i) => {
                let ghost ps = self.pairs();
                proof {
                    lemma_assoc_map_index(ps, i as int);
                }
                let s = &mut self.saves[i];
                let prev = s.latest_version.take();
                proof {
                    assert(self.pairs() =~~= ps.update(i as int, (ps[i as int].0, self.saves@[
                        i as int
                    ])));
                    lemma_assoc_map_update(ps, i as int, self.saves@[i as int]);
                    assert(self@ =~= with_latest(old(self)@, id@, None));
                    assert forall|a: int, b: int|
                        0 <= a < b < self.pairs().len() implies self.pairs()[a].0
                        != self.pairs()[b].0 by {
                        assert(ps[a].0 != ps[b].0);
                    }
                }
                Ok(prev)
            },
        }
    }

    /// Install a newest-version pointer for a save; the write side of the
    /// read-previous / install-new critical section. Fails, mutating
    /// nothing, when the id is unknown.
    pub fn set_latest_version(&mut self, id: &String, v: Option<MinecraftSaveVersion>) -> (r:
        BackupResult<()>)
        requires
            old(self).wf(),
            v matches Some(ver) ==> ver.wf(),
        ensures
            final(self).wf(),
            final(self).scan_root@ == old(self).scan_root@,
            final(self).scanned_saves@ == old(self).scanned_saves@,
            match r {
                Ok(()) => {
                    &&& old(self)@.dom().contains(id@)
                    &&& final(self)@ == with_latest(old(self)@, id@, v)
                },
                Err(e) => {
                    &&& !old(self)@.dom().contains(id@)
                    &&& *final(self) == *old(self)
                    &&& e matches MyError::IllegalArgument { name, value, expected } && name@
                        == "id"@ && value@ == id@ && expected@ == "a registered save id"@
                },
            },
    {
        match self.index_of(id) {
            None => Err(
                MyError::IllegalArgument {
                    name: "id".to_owned(),
                    value: id.clone(),
                    expected: "a registered save id".to_owned(),
                },
            ),
            Some(i) => {
                let ghost ps = self.pairs();
                proof {
                    lemma_assoc_map_index(ps, i as int);
                }
                let s = &mut self.saves[i];
                s.latest_version = v;
                proof {
                    assert(self.pairs() =~~= ps.update(i as int, (ps[i as int].0, self.saves@[
                        i as int
                    ])));
                    lemma_assoc_map_update(ps, i as int, self.saves@[i as int]);
                    assert(self@ =~= with_latest(old(self)@, id@, v));
                    assert forall|a: int, b: int|
                        0 <= a < b < self.pairs().len() implies self.pairs()[a].0
                        != self.pairs()[b].0 by {
                        assert(ps[a].0 != ps[b].0);
                    }
                }
                Ok(())
            },
        }
    }

    fn scanned_contains(&self, path: &String) -> (r: bool)
        ensures
            r == self.scanned_saves.deep_view().contains(path@),
    {
        let n = self.scanned_saves.len();
        for i in 0..n
            invariant
                n == self.scanned_saves@.len(),
                forall|j: int| 0 <= j < i ==> self.scanned_saves.deep_view()[j] != path@,
        {
            if self.scanned_saves[i].eq(path) {
                assert(self.scanned_saves.deep_view()[i as int] == path@);
                return true;
            }
        }
        false
    }

    /// Register one discovered path under a drawn id. With a fresh id the
    /// path is marked seen and a new save stands under the id; with a taken
    /// id nothing changes — the path stays unseen, to be retried on the
    /// next scan, rather than displacing a registered save.
    pub fn register_discovered(&mut self, path: &String, id: String) -> (added: bool)
        requires
            old(self).wf(),
        ensures
            added == !old(self)@.dom().contains(id@),
            final(self).wf(),
            final(self).scan_root@ == old(self).scan_root@,
            forall|k: Seq<char>|
                #[trigger] old(self)@.dom().contains(k) ==> final(self)@.dom().contains(k)
                    && final(self)@[k] == old(self)@[k],
            old(self)@.dom().contains(id@) ==> *final(self) == *old(self),
            !old(self)@.dom().contains(id@) ==> {
                &&& final(self)@.dom() == old(self)@.dom().insert(id@)
                &&& final(self)@[id@].id == id
                &&& final(self)@[id@].name@ == final_segment(path@)
                &&& final(self)@[id@].description@.len() == 0
                &&& final(self)@[id@].target@ == path@
                &&& final(self)@[id@].latest_version is None
                &&& final(self).scanned_saves@ == old(self).scanned_saves@.push(*path)
            },
            old(self).scanned_saves@.is_prefix_of(final(self).scanned_saves@),
            forall|l: int|
                old(self).scanned_saves@.len() <= l < final(self).scanned_saves@.len()
                    ==> #[trigger] final(self).scanned_saves.deep_view()[l] == path@,
    {
        match self.index_of(&id) {
            Some(_) => {
                proof {
                    assert(old(self).scanned_saves@.is_prefix_of(final(self).scanned_saves@));
                }
                false
            },
            None => {
                let ghost scanned0 = self.scanned_saves.deep_view();
                self.scanned_saves.push(path.clone());
                proof {
                    assert(self.scanned_saves.deep_view() =~= scanned0.push(path@));
                    assert(self.scanned_saves@ =~= old(self).scanned_saves@.push(*path));
                    assert(old(self).scanned_saves@.is_prefix_of(self.scanned_saves@));
                }
                let save = MinecraftSave::create(id, path.as_str());
                let ghost sid = save.id@;
                self.upsert(save);
                proof {
                    assert(self@.dom() =~= old(self)@.dom().insert(sid));
                }
                true
            },
        }
    }

    /// Fold freshly discovered save directories into the registry and hand
    /// back the fresh ids that were registered, one per newly seen path, in
    /// the order the paths were seen. A path whose drawn id is already
    /// taken is left unseen, to be retried on the next scan, rather than
    /// overwriting a registered save.
    pub fn refresh(&mut self, discovered: &Vec<String>) -> (new_ids: Vec<String>)
        requires
            old(self).wf(),
        ensures
            final(self).wf(),
            final(self).scan_root@ == old(self).scan_root@,
            // registered saves are never displaced by a scan
            forall|k: Seq<char>|
                #[trigger] old(self)@.dom().contains(k) ==> final(self)@.dom().contains(k)
                    && final(self)@[k] == old(self)@[k],
            // new registry entries are fresh saves for discovered paths
            forall|k: Seq<char>|
                #[trigger] final(self)@.dom().contains(k) && !old(self)@.dom().contains(k) ==> {
                    &&& final(self)@[k].latest_version is None
                    &&& discovered.deep_view().contains(final(self)@[k].target@)
                },
            // paths already seen stay seen; newly seen paths were discovered
            old(self).scanned_saves@.is_prefix_of(final(self).scanned_saves@),
            forall|j: int|
                old(self).scanned_saves@.len() <= j < final(self).scanned_saves@.len()
                    ==> discovered.deep_view().contains(
                    #[trigger] final(self).scanned_saves.deep_view()[j],
                ),
            // each newly seen path stands registered under the matching new id
            new_ids@.len() == final(self).scanned_saves@.len() - old(self).scanned_saves@.len(),
            forall|j: int|
                #![trigger new_ids@[j]]
                0 <= j < new_ids@.len() ==> {
                    &&& final(self)@.dom().contains((new_ids@[j])@)
                    &&& !old(self)@.dom().contains((new_ids@[j])@)
                    &&& final(self)@[(new_ids@[j])@].target@ == (final(self).scanned_saves@[
                        old(self).scanned_saves@.len() + j
                    ])@
                },
    {
        let mut new_ids: Vec<String> = Vec::new();
        let n = discovered.len();
        let mut i: usize = 0;
        while i < n
            invariant
                i <= n,
                n == discovered@.len(),
                self.wf(),
                self.scan_root@ == old(self).scan_root@,
                forall|k: Seq<char>|
                    #[trigger] old(self)@.dom().contains(k) ==> self@.dom().contains(k)
                        && self@[k] == old(self)@[k],
                forall|k: Seq<char>|
                    #[trigger] self@.dom().contains(k) && !old(self)@.dom().contains(k) ==> {
                        &&& self@[k].latest_version is None
                        &&& discovered.deep_view().contains(self@[k].target@)
                    },
                old(self).scanned_saves@.is_prefix_of(self.scanned_saves@),
                forall|j: int|
                    old(self).scanned_saves@.len() <= j < self.scanned_saves@.len()
                        ==> discovered.deep_view().contains(
                        #[trigger] self.scanned_saves.deep_view()[j],
                    ),
                new_ids@.len() == self.scanned_saves@.len() - old(self).scanned_saves@.len(),
                forall|j: int|
                    #![trigger new_ids@[j]]
                    0 <= j < new_ids@.len() ==> {
                        &&& self@.dom().contains((new_ids@[j])@)
                        &&& !old(self)@.dom().contains((new_ids@[j])@)
                        &&& self@[(new_ids@[j])@].target@ == (self.scanned_saves@[
                            old(self).scanned_saves@.len() + j
                        ])@
                    },
            decreases n - i,
        {
            let path = &discovered[i];
            if !self.scanned_contains(path) {
                let ghost pre = *self;
                let ghost ids0 = new_ids@;
                let id = new_uuid_string();
                let ghost idv = id@;
                let id_copy = id.clone();
                let added = self.register_discovered(path, id);
                if added {
                    new_ids.push(id_copy);
                }
                proof {
                    assert(discovered.deep_view()[i as int] == path@);
                    assert forall|k: Seq<char>|
                        #[trigger] old(self)@.dom().contains(k) implies self@.dom().contains(k)
                        && self@[k] == old(self)@[k] by {
                        assert(pre@.dom().contains(k) && pre@[k] == old(self)@[k]);
                    }
                    assert forall|k: Seq<char>|
                        #[trigger] self@.dom().contains(k) && !old(self)@.dom().contains(k)
                        implies {
                        &&& self@[k].latest_version is None
                        &&& discovered.deep_view().contains(self@[k].target@)
                    } by {
                        if pre@.dom().contains(k) {
                            assert(self@[k] == pre@[k]);
                        } else {
                            assert(self@[k].target@ == path@);
                        }
                    }
                    assert(old(self).scanned_saves@.is_prefix_of(self.scanned_saves@)) by {
                        assert(old(self).scanned_saves@ =~= self.scanned_saves@.subrange(
                            0,
                            old(self).scanned_saves@.len() as int,
                        ));
                    }
                    assert forall|j: int|
                        old(self).scanned_saves@.len() <= j < self.scanned_saves@.len() implies
                        discovered.deep_view().contains(
                        #[trigger] self.scanned_saves.deep_view()[j]) by {
                        if j < pre.scanned_saves@.len() {
                            assert(self.scanned_saves.deep_view()[j]
                                == pre.scanned_saves.deep_view()[j]);
                        } else {
                            assert(self.scanned_saves.deep_view()[j] == path@);
                        }
                    }
                    if added {
                        assert(new_ids@ =~= ids0.push(id_copy));
                        assert(self.scanned_saves@ =~= pre.scanned_saves@.push(*path));
                    }
                    assert forall|j: int|
                        #![trigger new_ids@[j]]
                        0 <= j < new_ids@.len() implies {
                        &&& self@.dom().contains((new_ids@[j])@)
                        &&& !old(self)@.dom().contains((new_ids@[j])@)
                        &&& self@[(new_ids@[j])@].target@ == (self.scanned_saves@[
                            old(self).scanned_saves@.len() + j
                        ])@
                    } by {
                        if j < ids0.len() {
                            assert(new_ids@[j] == ids0[j]);
                            assert(pre@.dom().contains((ids0[j])@) && !old(self)@.dom().contains(
                                (ids0[j])@,
                            ) && pre@[(ids0[j])@].target@ == (pre.scanned_saves@[
                                old(self).scanned_saves@.len() + j
                            ])@);
                            assert(self@.dom().contains((ids0[j])@) && self@[(ids0[j])@]
                                == pre@[(ids0[j])@]);
                            assert((self.scanned_saves@[old(self).scanned_saves@.len() + j])@
                                == (pre.scanned_saves@[old(self).scanned_saves@.len() + j])@);
                        } else {
                            assert((new_ids@[j])@ == idv);
                            assert(!pre@.dom().contains(idv));
                            assert(!old(self)@.dom().contains(idv)) by {
                                if old(self)@.dom().contains(idv) {
                                    assert(pre@.dom().contains(idv));
                                }
                            }
                            assert(self@.dom().contains(idv) && self@[idv].target@ == path@);
                            assert((self.scanned_saves@[old(self).scanned_saves@.len() + j])@
                                == path@);
                        }
                    }
                }
            }
            i = i + 1;
        }
        new_ids
    }
}

/// Installing new versions for two distinct saves leaves both pointers in
/// place, in whichever order the two critical sections were serialized:
/// neither backup loses the other's update.
pub proof fn lemma_concurrent_backups_distinct_saves(
    m: Map<Seq<char>, MinecraftSave>,
    id1: Seq<char>,
    id2: Seq<char>,
    v1: MinecraftSaveVersion,
    v2: MinecraftSaveVersion,
)
    requires
        id1 != id2,
        m.dom().contains(id1),
        m.dom().contains(id2),
    ensures
        ({
            let after = with_latest(with_latest(m, id1, Some(v1)), id2, Some(v2));
            &&& after[id1].latest_version == Some(v1)
            &&& after[id2].latest_version == Some(v2)
            &&& after == with_latest(with_latest(m, id2, Some(v2)), id1, Some(v1))
        }),
{
    let after12 = with_latest(with_latest(m, id1, Some(v1)), id2, Some(v2));
    let after21 = with_latest(with_latest(m, id2, Some(v2)), id1, Some(v1));
    assert(after12 =~= after21);
}

/// One tracked directory's backup configuration: a stable id derived from a
/// hash of the source path, a display name, and whether its repository has
/// been initialized.
pub struct SaveBackupConfiguration {
    pub id: String,
    pub name: String,
    pub init: bool,
    pub source: String,
}

impl SaveBackupConfiguration {
    /// Configuration for a source directory. The id is the hex-rendered
    /// content hash of the path, so distinct paths get distinct ids as far
    /// as the digest is collision-free; the name is the path's final
    /// segment.
    pub fn new(source: &str) -> (s: Self)
        requires
            source@.len() < 0x400000000000000,
        ensures
            s.id@ == hex_of_sum(hash_of(source.spec_bytes())),
            s.name@ == final_segment(source@),
            !s.init,
            s.source@ == source@,
    {
        proof {
            lemma_encode_utf8_len(source@);
        }
        let sum = hash(source.as_bytes());
        SaveBackupConfiguration {
            id: sum.to_hex(),
            name: file_name_of(source),
            init: false,
            source: source.to_owned(),
        }
    }

    /// Record that the save's repository has been initialized.
    pub fn mark_initialized(&mut self)
        ensures
            final(self).id == old(self).id,
            final(self).name == old(self).name,
            final(self).init,
            final(self).source == old(self).source,
    {
        self.init = true;
    }
}

/// The application's persisted state: the save directories seen so far and
/// the backup configuration of each, keyed by path-derived id.
pub struct AppState {
    pub save_dirs: Vec<String>,
    pub saves: Vec<SaveBackupConfiguration>,
}

impl AppState {
    /// The (id, configuration) pairs the state holds.
    pub open spec fn pairs(self) -> Seq<(Seq<char>, SaveBackupConfiguration)> {
        self.saves@.map_values(|s: SaveBackupConfiguration| (s.id@, s))
    }

    /// The state read as a map from id to configuration.
    pub open spec fn view(self) -> Map<Seq<char>, SaveBackupConfiguration> {
        assoc_map(self.pairs())
    }

    /// Ids are unique.
    pub open spec fn wf(self) -> bool {
        keys_unique(self.pairs())
    }

    /// An empty state.
    pub fn new() -> (s: Self)
        ensures
            s.wf(),
            s@ == Map::<Seq<char>, SaveBackupConfiguration>::empty(),
            s.save_dirs@.len() == 0,
            s.saves@.len() == 0,
    {
        AppState { save_dirs: Vec::new(), saves: Vec::new() }
    }

    fn dirs_contain(&self, path: &String) -> (r: bool)
        ensures
            r == self.save_dirs.deep_view().contains(path@),
    {
        let n = self.save_dirs.len();
        for i in 0..n
            invariant
                n == self.save_dirs@.len(),
                forall|j: int| 0 <= j < i ==> self.save_dirs.deep_view()[j] != path@,
        {
            if self.save_dirs[i].eq(path) {
                assert(self.save_dirs.deep_view()[i as int] == path@);
                return true;
            }
        }
        false
    }

    fn contains_id(&self, id: &String) -> (r: bool)
        requires
            self.wf(),
        ensures
            r == self@.dom().contains(id@),
    {
        let n = self.saves.len();
        for i in 0..n
            invariant
                n == self.saves@.len(),
                self.wf(),
                forall|j: int| 0 <= j < i ==> self.pairs()[j].0 != id@,
        {
            if self.saves[i].id.eq(id) {
                proof {
                    lemma_assoc_map_index(self.pairs(), i as int);
                }
                return true;
            }
        }
        proof {
            lemma_assoc_map_contains(self.pairs(), id@);
        }
        false
    }

    /// The id a source path derives: the hex-rendered content hash of the
    /// path's UTF-8 bytes.
    pub open spec fn path_id(p: Seq<char>) -> Seq<char> {
        hex_of_sum(hash_of(vstd::utf8::encode_utf8(p)))
    }

    /// Register one found directory: mark it seen and, unless its
    /// path-derived id is already taken (which only a digest collision of
    /// two distinct paths can produce), add its configuration under that
    /// id.
    fn register_config(&mut self, path: &String)
        requires
            old(self).wf(),
            path@.len() < 0x400000000000000,
        ensures
            final(self).wf(),
            forall|k: Seq<char>|
                #[trigger] old(self)@.dom().contains(k) ==> final(self)@.dom().contains(k)
                    && final(self)@[k] == old(self)@[k],
            final(self).save_dirs@ == old(self).save_dirs@.push(*path),
            old(self)@.dom().contains(Self::path_id(path@)) ==> final(self)@ == old(self)@,
            !old(self)@.dom().contains(Self::path_id(path@)) ==> {
                &&& final(self)@.dom() == old(self)@.dom().insert(Self::path_id(path@))
                &&& final(self)@[Self::path_id(path@)].id@ == Self::path_id(path@)
                &&& final(self)@[Self::path_id(path@)].name@ == final_segment(path@)
                &&& !final(self)@[Self::path_id(path@)].init
                &&& final(self)@[Self::path_id(path@)].source@ == path@
            },
            forall|k: Seq<char>|
                #[trigger] final(self)@.dom().contains(k) && !old(self)@.dom().contains(k) ==> {
                    &&& !final(self)@[k].init
                    &&& final(self)@[k].source@ == path@
                },
            old(self).save_dirs@.is_prefix_of(final(self).save_dirs@),
            forall|l: int|
                old(self).save_dirs@.len() <= l < final(self).save_dirs@.len()
                    ==> #[trigger] final(self).save_dirs.deep_view()[l] == path@,
    {
        let ghost dirs0 = self.save_dirs.deep_view();
        self.save_dirs.push(path.clone());
        proof {
            assert(self.save_dirs.deep_view() =~= dirs0.push(path@));
            assert(self.save_dirs@ =~= old(self).save_dirs@.push(*path));
            assert(old(self).save_dirs@.is_prefix_of(self.save_dirs@));
        }
        let cfg = SaveBackupConfiguration::new(path.as_str());
        proof {
            assert(cfg.id@ == Self::path_id(path@));
        }
        if !self.contains_id(&cfg.id) {
            let ghost ps = self.pairs();
            let ghost cid = cfg.id@;
            let ghost cv = cfg;
            self.saves.push(cfg);
            proof {
                assert(self.pairs() =~~= ps.push((cid, cv)));
                lemma_assoc_map_push(ps, cid, cv);
                assert(self@.dom() =~= old(self)@.dom().insert(cid));
                assert forall|a: int, b: int|
                    0 <= a < b < self.pairs().len() implies self.pairs()[a].0
                    != self.pairs()[b].0 by {
                    if b == self.pairs().len() - 1 {
                        lemma_assoc_map_contains(ps, ps[a].0);
                    }
                }
                assert forall|k: Seq<char>|
                    #[trigger] self@.dom().contains(k) && !old(self)@.dom().contains(k) implies {
                    &&& !self@[k].init
                    &&& self@[k].source@ == path@
                } by {
                    if k != cid {
                        assert(old(self)@.dom().contains(k));
                    }
                }
            }
        }
    }

    /// The ids of the configurations whose source directory is not among
    /// the found paths, in registry order.
    pub open spec fn stale_ids(
        saves: Seq<SaveBackupConfiguration>,
        found: Seq<Seq<char>>,
    ) -> Seq<Seq<char>>
        decreases saves.len(),
    {
        if saves.len() == 0 {
            Seq::empty()
        } else if !found.contains(saves.last().source@) {
            Self::stale_ids(saves.drop_last(), found).push(saves.last().id@)
        } else {
            Self::stale_ids(saves.drop_last(), found)
        }
    }

    /// Fold a scan's findings into the state: each directory not seen
    /// before gets a configuration under its path-derived id, and the ids
    /// of saves whose source directory vanished from the scan are handed
    /// back — candidates for operator-driven removal, never removed here
    /// because their blobs may still be referenced.
    pub fn integrate_scan(&mut self, found: &Vec<String>) -> (stale: Vec<String>)
        requires
            old(self).wf(),
            forall|i: int|
                0 <= i < found@.len() ==> (#[trigger] found@[i])@.len() < 0x400000000000000,
        ensures
            final(self).wf(),
            // existing configurations are kept
            forall|k: Seq<char>|
                #[trigger] old(self)@.dom().contains(k) ==> final(self)@.dom().contains(k)
                    && final(self)@[k] == old(self)@[k],
            // new configurations come from found directories
            forall|k: Seq<char>|
                #[trigger] final(self)@.dom().contains(k) && !old(self)@.dom().contains(k) ==> {
                    &&& !final(self)@[k].init
                    &&& found.deep_view().contains(final(self)@[k].source@)
                },
            // seen directories stay seen; newly seen ones were found
            old(self).save_dirs@.is_prefix_of(final(self).save_dirs@),
            forall|j: int|
                old(self).save_dirs@.len() <= j < final(self).save_dirs@.len()
                    ==> found.deep_view().contains(
                    #[trigger] final(self).save_dirs.deep_view()[j],
                ),
            // stale holds exactly the ids of saves whose source vanished
            stale.deep_view() == Self::stale_ids(old(self).saves@, found.deep_view()),
            forall|k: int|
                0 <= k < old(self).saves@.len() && !found.deep_view().contains(
                    (#[trigger] old(self).saves@[k]).source@,
                ) ==> stale.deep_view().contains(old(self).saves@[k].id@),
            // every found directory ends up seen
            forall|j: int|
                0 <= j < found@.len() ==> final(self).save_dirs.deep_view().contains(
                    (#[trigger] found@[j])@,
                ),
            // every found directory's derived id ends up registered, unless
            // the directory was already seen before the scan
            forall|j: int|
                0 <= j < found@.len() && !old(self).save_dirs.deep_view().contains(
                    (#[trigger] found@[j])@,
                ) ==> final(self)@.dom().contains(Self::path_id(found@[j]@)),
    {
        let mut stale: Vec<String> = Vec::new();
        let n = self.saves.len();
        for i in 0..n
            invariant
                n == self.saves@.len(),
                self.wf(),
                *self == *old(self),
                stale.deep_view() == Self::stale_ids(
                    old(self).saves@.subrange(0, i as int),
                    found.deep_view(),
                ),
        {
            let mut seen = false;
            let m = found.len();
            for j in 0..m
                invariant
                    m == found@.len(),
                    i < self.saves@.len(),
                    seen ==> found.deep_view().contains(self.saves@[i as int].source@),
                    !seen ==> forall|l: int|
                        0 <= l < j ==> found.deep_view()[l] != self.saves@[i as int].source@,
                    *self == *old(self),
            {
                if found[j].eq(&self.saves[i].source) {
                    assert(found.deep_view()[j as int] == self.saves@[i as int].source@);
                    seen = true;
                }
            }
            let ghost dv0 = stale.deep_view();
            proof {
                if !seen {
                    assert(!found.deep_view().contains(old(self).saves@[i as int].source@)) by {
                        if found.deep_view().contains(old(self).saves@[i as int].source@) {
                            let l = choose|l: int|
                                0 <= l < found.deep_view().len() && found.deep_view()[l] == old(
                                    self,
                                ).saves@[i as int].source@;
                        }
                    }
                }
                assert(old(self).saves@.subrange(0, i + 1).drop_last() =~= old(
                    self,
                ).saves@.subrange(0, i as int));
                assert(old(self).saves@.subrange(0, i + 1).last() == old(self).saves@[i as int]);
            }
            if !seen {
                stale.push(self.saves[i].id.clone());
                proof {
                    assert(stale.deep_view() =~= dv0.push(old(self).saves@[i as int].id@));
                }
            }
        }
        proof {
            assert(old(self).saves@.subrange(0, n as int) =~= old(self).saves@);
        }
        let ghost stale_dv = stale.deep_view();
        let m = found.len();
        let mut j: usize = 0;
        while j < m
            invariant
                j <= m,
                m == found@.len(),
                self.wf(),
                stale.deep_view() == stale_dv,
                stale_dv == Self::stale_ids(old(self).saves@, found.deep_view()),
                forall|i: int|
                    0 <= i < found@.len() ==> (#[trigger] found@[i])@.len() < 0x400000000000000,
                forall|k: Seq<char>|
                    #[trigger] old(self)@.dom().contains(k) ==> self@.dom().contains(k)
                        && self@[k] == old(self)@[k],
                forall|k: Seq<char>|
                    #[trigger] self@.dom().contains(k) && !old(self)@.dom().contains(k) ==> {
                        &&& !self@[k].init
                        &&& found.deep_view().contains(self@[k].source@)
                    },
                old(self).save_dirs@.is_prefix_of(self.save_dirs@),
                forall|l: int|
                    old(self).save_dirs@.len() <= l < self.save_dirs@.len()
                        ==> found.deep_view().contains(#[trigger] self.save_dirs.deep_view()[l]),
                forall|l: int|
                    #![trigger self.save_dirs@[l]]
                    old(self).save_dirs@.len() <= l < self.save_dirs@.len()
                        ==> self@.dom().contains(Self::path_id((self.save_dirs@[l])@)),
                forall|j2: int|
                    0 <= j2 < j ==> self.save_dirs.deep_view().contains((#[trigger] found@[j2])@),
                forall|j2: int|
                    0 <= j2 < j && !old(self).save_dirs.deep_view().contains(
                        (#[trigger] found@[j2])@,
                    ) ==> self@.dom().contains(Self::path_id(found@[j2]@)),
            decreases m - j,
        {
            let path = &found[j];
            if self.dirs_contain(path) {
                proof {
                    assert(self.save_dirs.deep_view().contains((found@[j as int])@));
                    if !old(self).save_dirs.deep_view().contains(path@) {
                        let l = choose|l: int|
                            0 <= l < self.save_dirs.deep_view().len()
                                && self.save_dirs.deep_view()[l] == path@;
                        if l < old(self).save_dirs@.len() {
                            assert(old(self).save_dirs@[l] == self.save_dirs@[l]);
                            assert(old(self).save_dirs.deep_view()[l] == path@);
                        } else {
                            assert((self.save_dirs@[l])@ == path@);
                            assert(self@.dom().contains(Self::path_id((self.save_dirs@[l])@)));
                        }
                    }
                }
            } else {
                let ghost pre = *self;
                self.register_config(path);
                proof {
                    assert(found.deep_view()[j as int] == path@);
                    assert forall|k: Seq<char>|
                        #[trigger] old(self)@.dom().contains(k) implies self@.dom().contains(k)
                        && self@[k] == old(self)@[k] by {
                        assert(pre@.dom().contains(k) && pre@[k] == old(self)@[k]);
                    }
                    assert forall|k: Seq<char>|
                        #[trigger] self@.dom().contains(k) && !old(self)@.dom().contains(k)
                        implies {
                        &&& !self@[k].init
                        &&& found.deep_view().contains(self@[k].source@)
                    } by {
                        if pre@.dom().contains(k) {
                            assert(self@[k] == pre@[k]);
                        } else {
                            assert(self@[k].source@ == path@);
                        }
                    }
                    assert(old(self).save_dirs@.is_prefix_of(self.save_dirs@)) by {
                        assert(old(self).save_dirs@ =~= self.save_dirs@.subrange(
                            0,
                            old(self).save_dirs@.len() as int,
                        ));
                    }
                    assert forall|l: int|
                        old(self).save_dirs@.len() <= l < self.save_dirs@.len() implies
                        found.deep_view().contains(#[trigger] self.save_dirs.deep_view()[l]) by {
                        if l < pre.save_dirs@.len() {
                            assert(self.save_dirs.deep_view()[l] == pre.save_dirs.deep_view()[l]);
                        } else {
                            assert(self.save_dirs.deep_view()[l] == path@);
                        }
                    }
                    // the derived id of the pushed directory is registered,
                    // whether the registration was fresh or the id was taken
                    assert(self@.dom().contains(Self::path_id(path@))) by {
                        if pre@.dom().contains(Self::path_id(path@)) {
                            assert(self@.dom().contains(Self::path_id(path@)));
                        }
                    }
                    assert forall|l: int|
                        #![trigger self.save_dirs@[l]]
                        old(self).save_dirs@.len() <= l < self.save_dirs@.len() implies
                        self@.dom().contains(Self::path_id((self.save_dirs@[l])@)) by {
                        if l < pre.save_dirs@.len() {
                            assert(self.save_dirs@[l] == pre.save_dirs@[l]);
                            assert(pre@.dom().contains(Self::path_id((pre.save_dirs@[l])@)));
                        } else {
                            assert(self.save_dirs@[l] == *path);
                        }
                    }
                    assert forall|j2: int|
                        0 <= j2 < j + 1 implies self.save_dirs.deep_view().contains(
                        (#[trigger] found@[j2])@) by {
                        if j2 < j {
                            let l = choose|l: int|
                                0 <= l < pre.save_dirs.deep_view().len()
                                    && pre.save_dirs.deep_view()[l] == (found@[j2])@;
                            assert(self.save_dirs.deep_view()[l] == (found@[j2])@);
                        } else {
                            assert(self.save_dirs.deep_view()[self.save_dirs@.len() - 1]
                                == path@);
                        }
                    }
                    assert forall|j2: int|
                        0 <= j2 < j + 1 && !old(self).save_dirs.deep_view().contains(
                            (#[trigger] found@[j2])@,
                        ) implies self@.dom().contains(Self::path_id(found@[j2]@)) by {
                        if j2 < j {
                            assert(pre@.dom().contains(Self::path_id(found@[j2]@)));
                        }
                    }
                }
            }
            j = j + 1;
        }
        proof {
            lemma_stale_ids_complete(old(self).saves@, found.deep_view());
        }
        stale
    }
}

/// Every save whose source vanished is named in the stale-id list.
pub proof fn lemma_stale_ids_complete(saves: Seq<SaveBackupConfiguration>, found: Seq<Seq<char>>)
    ensures
        forall|k: int|
            0 <= k < saves.len() && !found.contains((#[trigger] saves[k]).source@)
                ==> AppState::stale_ids(saves, found).contains(saves[k].id@),
    decreases saves.len(),
{
    if saves.len() == 0 {
    } else {
        lemma_stale_ids_complete(saves.drop_last(), found);
        let prior = AppState::stale_ids(saves.drop_last(), found);
        assert forall|k: int|
            0 <= k < saves.len() && !found.contains((#[trigger] saves[k]).source@) implies
            AppState::stale_ids(saves, found).contains(saves[k].id@) by {
            if k < saves.len() - 1 {
                assert(saves.drop_last()[k] == saves[k]);
                assert(prior.contains(saves[k].id@));
                let j = choose|j: int| 0 <= j < prior.len() && prior[j] == saves[k].id@;
                assert(AppState::stale_ids(saves, found)[j] == saves[k].id@);
            } else {
                let s = AppState::stale_ids(saves, found);
                assert(s[s.len() - 1] == saves[k].id@);
            }
        }
    }
}

} // verus!
