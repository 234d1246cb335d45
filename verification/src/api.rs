//! The request surface: wire-level actions, their validation, and the
//! backup request handler.
//!
//! A request carries an action and a string payload; the backup payload
//! names a save id and a numeric version-type code. The code is mapped to
//! its variant by exhaustive validation — an unknown value is rejected as
//! an illegal argument, never reinterpreted.

use vstd::prelude::*;

use vstd::string::StrSliceExecFns;

use crate::backup::manifest::TreeSnapshot;
use crate::backup::save::{full_pass_done, incremental_pass_done, new_blobs_from_changed,
    new_blobs_from_tree,
    MinecraftSaveVersion, MinecraftSaveVersionType};
use crate::backup::store::BlobStore;
use crate::backup::{with_latest, MinecraftSaveCollection};
use crate::error::{BackupResult, MyError};
use crate::utils::{dec_str_of, decimal_of_u8};

verus! {

/// What a request asks for.
#[derive(Debug, Clone, Copy, PartialEq, Eq, Structural)]
pub enum Action {
    List,
    Backup,
}

/// One request: an action and its string payload.
pub struct ApiData {
    pub action: Action,
    pub payload: Vec<String>,
}

/// The exhaustive map from a wire code to an action; a rejection reports
/// the offending code.
pub fn action_from_code(code: u8) -> (r: BackupResult<Action>)
    ensures
        match r {
            Ok(a) => (code == 0 && a is List) || (code == 1 && a is Backup),
            Err(e) => {
                &&& code != 0 && code != 1
                &&& e matches MyError::IllegalArgument { name, value, expected } && name@
                    == "action_id"@ && value@ == dec_str_of(code as int) && expected@ == "0, 1"@
            },
        },
{
    match code {
        0 => Ok(Action::List),
        1 => Ok(Action::Backup),
        _ => Err(
            MyError::IllegalArgument {
                name: "action_id".to_owned(),
                value: decimal_of_u8(code),
                expected: "0, 1".to_owned(),
            },
        ),
    }
}

/// The exhaustive map from a wire code to a version type; a rejection
/// reports the offending code.
pub fn version_type_from_code(code: u8) -> (r: BackupResult<MinecraftSaveVersionType>)
    ensures
        match r {
            Ok(t) => (code == 0 && t is Full) || (code == 1 && t is IncrementalFile) || (code == 2
                && t is Snapshot) || (code == 255 && t is Default),
            Err(e) => {
                &&& code != 0 && code != 1 && code != 2 && code != 255
                &&& e matches MyError::IllegalArgument { name, value, expected } && name@
                    == "type"@ && value@ == dec_str_of(code as int) && expected@
                    == "0, 1, 2, 255"@
            },
        },
{
    match code {
        0 => Ok(MinecraftSaveVersionType::Full),
        1 => Ok(MinecraftSaveVersionType::IncrementalFile),
        2 => Ok(MinecraftSaveVersionType::Snapshot),
        255 => Ok(MinecraftSaveVersionType::Default),
        _ => Err(
            MyError::IllegalArgument {
                name: "type".to_owned(),
                value: decimal_of_u8(code),
                expected: "0, 1, 2, 255".to_owned(),
            },
        ),
    }
}

/// Whether a character is a decimal digit.
pub open spec fn is_dec_digit(c: char) -> bool {
    48 <= c as u32 <= 57
}

/// Whether every character of `s` is a decimal digit.
pub open spec fn all_dec_digits(s: Seq<char>) -> bool {
    forall|i: int| 0 <= i < s.len() ==> is_dec_digit(#[trigger] s[i])
}

/// The number the decimal digits of `s` denote.
pub open spec fn dec_val(s: Seq<char>) -> int
    decreases s.len(),
{
    if s.len() == 0 {
        0
    } else {
        10 * dec_val(s.drop_last()) + (s.last() as u32 - 48)
    }
}

proof fn lemma_dec_val_nonneg(s: Seq<char>)
    requires
        all_dec_digits(s),
    ensures
        dec_val(s) >= 0,
    decreases s.len(),
{
    if s.len() > 0 {
        assert(all_dec_digits(s.drop_last()));
        lemma_dec_val_nonneg(s.drop_last());
    }
}

proof fn lemma_dec_val_prefix(s: Seq<char>, j: int)
    requires
        all_dec_digits(s),
        0 <= j <= s.len(),
    ensures
        dec_val(s.subrange(0, j)) <= dec_val(s),
    decreases s.len() - j,
{
    if j == s.len() {
        assert(s.subrange(0, j) =~= s);
    } else {
        lemma_dec_val_prefix(s, j + 1);
        assert(s.subrange(0, j + 1).drop_last() =~= s.subrange(0, j));
        assert(all_dec_digits(s.subrange(0, j)));
        lemma_dec_val_nonneg(s.subrange(0, j));
        assert(dec_val(s.subrange(0, j + 1)) == 10 * dec_val(s.subrange(0, j)) + (s[j] as u32
            - 48));
    }
}

/// Parse a `u8` from its decimal notation; anything else is an illegal
/// argument reporting the offending string.
pub fn parse_u8(s: &str) -> (r: BackupResult<u8>)
    ensures
        match r {
            Ok(n) => s@.len() > 0 && all_dec_digits(s@) && dec_val(s@) == n,
            Err(e) => {
                &&& (s@.len() == 0 || !all_dec_digits(s@) || dec_val(s@) > 255)
                &&& e matches MyError::IllegalArgument { name, value, expected } && name@
                    == "type"@ && value@ == s@ && expected@ == "int"@
            },
        },
{
    let n = s.unicode_len();
    if n == 0 {
        return Err(
            MyError::IllegalArgument {
                name: "type".to_owned(),
                value: s.to_owned(),
                expected: "int".to_owned(),
            },
        );
    }
    let mut acc: u32 = 0;
    let mut i: usize = 0;
    while i < n
        invariant
            n == s@.len(),
            i <= n,
            all_dec_digits(s@.subrange(0, i as int)),
            acc == dec_val(s@.subrange(0, i as int)),
            acc <= 255,
        decreases n - i,
    {
        let c = s.get_char(i);
        let v = c as u32;
        if v < 48 || v > 57 {
            proof {
                assert(!is_dec_digit(s@[i as int]));
            }
            return Err(
                MyError::IllegalArgument {
                    name: "type".to_owned(),
                    value: s.to_owned(),
                    expected: "int".to_owned(),
                },
            );
        }
        let d: u32 = v - 48;
        proof {
            assert(s@.subrange(0, i + 1).drop_last() =~= s@.subrange(0, i as int));
            assert(s@.subrange(0, i + 1).last() == s@[i as int]);
            assert(all_dec_digits(s@.subrange(0, i + 1)));
        }
        if acc > 25 || (acc == 25 && d > 5) {
            proof {
                if all_dec_digits(s@) {
                    lemma_dec_val_prefix(s@, i + 1);
                }
            }
            return Err(
                MyError::IllegalArgument {
                    name: "type".to_owned(),
                    value: s.to_owned(),
                    expected: "int".to_owned(),
                },
            );
        }
        acc = acc * 10 + d;
        i = i + 1;
    }
    proof {
        assert(s@.subrange(0, n as int) =~= s@);
    }
    Ok(acc as u8)
}

/// Write the short protocol description, one line per entry.
pub fn write_api_help(out: &mut Vec<String>)
    ensures
        final(out)@.len() == old(out)@.len() + 6,
        forall|i: int| 0 <= i < old(out)@.len() ==> final(out)@[i] == old(out)@[i],
        final(out)@[old(out)@.len() as int]@ == "MineSave API help"@,
        final(out)@[old(out)@.len() as int + 1]@ == "Json & Command are supported"@,
        final(out)@[old(out)@.len() as int + 2]@ == "Command example: backup --filter=\"New World\""@,
        final(out)@[old(out)@.len() as int + 3]@
            == "List: action_id=0, [filter=<regex applied to name>] -> Result<[{name: string, versions: [{type: int, description: string}]}]>"@,
        final(out)@[old(out)@.len() as int + 4]@ == "Backup: action_id=1, id=?, type=<backup type> -> Result"@,
        final(out)@[old(out)@.len() as int + 5]@
            == "backup type: 0=Full 1=IncrementalFile 2=Snapshot 255=Default"@,
{
    out.push("MineSave API help".to_owned());
    out.push("Json & Command are supported".to_owned());
    out.push("Command example: backup --filter=\"New World\"".to_owned());
    out.push(
        "List: action_id=0, [filter=<regex applied to name>] -> Result<[{name: string, versions: [{type: int, description: string}]}]>".to_owned(),
    );
    out.push("Backup: action_id=1, id=?, type=<backup type> -> Result".to_owned());
    out.push("backup type: 0=Full 1=IncrementalFile 2=Snapshot 255=Default".to_owned());
}

/// Whether a payload string is the decimal notation of some `u8`.
pub open spec fn parses_as_u8(s: Seq<char>) -> bool {
    s.len() > 0 && all_dec_digits(s) && dec_val(s) <= 255
}

/// Whether a payload string names a version type this engine takes.
pub open spec fn valid_backup_code(s: Seq<char>) -> bool {
    &&& parses_as_u8(s)
    &&& (dec_val(s) == 0 || dec_val(s) == 1 || dec_val(s) == 255)
}

/// Handle one backup request: look up the save, read its previous version,
/// create a new version of the tree, and install it — read-previous and
/// install-new bracket the (possibly slow) hashing work. The request
/// succeeds exactly when its type code names a version kind this engine
/// takes and its id names a registered save; any failure is an
/// illegal-argument error carrying the offending value, and leaves the
/// registry exactly as it was — no partial version is ever installed.
pub fn handle_request(
    data: &ApiData,
    tree: &TreeSnapshot,
    registry: &mut MinecraftSaveCollection,
    store: &mut BlobStore,
    now: u64,
) -> (r: BackupResult<()>)
    requires
        data.action is Backup,
        data.payload@.len() >= 2,
        tree.wf(),
        old(registry).wf(),
        old(store).wf(),
    ensures
        final(registry).wf(),
        final(store).wf(),
        final(store).level == old(store).level,
        old(store).contents().submap_of(final(store).contents()),
        new_blobs_from_tree(old(store).contents(), final(store).contents(), tree@),
        final(registry).scan_root@ == old(registry).scan_root@,
        final(registry).scanned_saves@ == old(registry).scanned_saves@,
        r is Ok <==> (valid_backup_code(data.payload@[1]@) && old(registry)@.dom().contains(
            data.payload@[0]@,
        )),
        match r {
            Ok(()) => ({
                let idv = data.payload@[0]@;
                &&& final(registry)@.dom() == old(registry)@.dom()
                &&& forall|k: Seq<char>|
                    #[trigger] old(registry)@.dom().contains(k) && k != idv ==> final(registry)@[k]
                        == old(registry)@[k]
                &&& final(registry)@[idv].id == old(registry)@[idv].id
                &&& final(registry)@[idv].name == old(registry)@[idv].name
                &&& final(registry)@[idv].target == old(registry)@[idv].target
                &&& (final(registry)@[idv].latest_version matches Some(v) && {
                    &&& v.wf()
                    &&& v.timestamp >= now
                    &&& (old(registry)@[idv].latest_version matches Some(p) ==> v.timestamp
                        >= p.timestamp && (p.timestamp < u64::MAX ==> v.timestamp > p.timestamp))
                    &&& (match (v.prev, old(registry)@[idv].latest_version) {
                        (Some(b), Some(p)) => b == p,
                        (None, None) => true,
                        _ => false,
                    })
                    &&& ((dec_val(data.payload@[1]@) == 0 || dec_val(data.payload@[1]@) == 255
                        || old(registry)@[idv].latest_version is None) ==> full_pass_done(
                        v,
                        tree@,
                        final(store).contents(),
                    ))
                    &&& (dec_val(data.payload@[1]@) == 1 ==> (old(
                        registry,
                    )@[idv].latest_version matches Some(p) ==> incremental_pass_done(
                        v,
                        p.manifest@,
                        tree@,
                        final(store).contents(),
                    ) && new_blobs_from_changed(
                        old(store).contents(),
                        final(store).contents(),
                        tree@,
                        p.manifest@,
                    )))
                })
            }),
            Err(e) => {
                &&& final(registry)@ == old(registry)@
                &&& *final(store) == *old(store)
                &&& e matches MyError::IllegalArgument { name, value, expected } && {
                    &&& (!valid_backup_code(data.payload@[1]@) ==> name@ == "type"@ && value@
                        == data.payload@[1]@ && (if parses_as_u8(data.payload@[1]@) {
                        expected@ == "0, 1, 255"@
                    } else {
                        expected@ == "int"@
                    }))
                    &&& (valid_backup_code(data.payload@[1]@) ==> name@ == "id"@ && value@
                        == data.payload@[0]@ && expected@ == "a registered save id"@)
                }
            },
        },
{
    let id = &data.payload[0];
    let t = match parse_u8(data.payload[1].as_str()) {
        Ok(t) => t,
        Err(e) => {
            return Err(e);
        },
    };
    let vt = if t == 0 {
        MinecraftSaveVersionType::Full
    } else if t == 1 {
        MinecraftSaveVersionType::IncrementalFile
    } else if t == 255 {
        MinecraftSaveVersionType::Default
    } else {
        return Err(
            MyError::IllegalArgument {
                name: "type".to_owned(),
                value: data.payload[1].clone(),
                expected: "0, 1, 255".to_owned(),
            },
        );
    };
    let prev = match registry.take_latest_version(id) {
        Ok(p) => p,
        Err(e) => {
            return Err(e);
        },
    };
    let ghost prev_value = prev;
    let prev_boxed = match prev {
        Some(v) => Some(Box::new(v)),
        None => None,
    };
    match MinecraftSaveVersion::create(vt, tree, prev_boxed, String::new(), now, store) {
        Ok(version) => {
            let ghost v = version;
            match registry.set_latest_version(id, Some(version)) {
                Ok(()) => {
                    proof {
                        assert(registry@ =~= with_latest(old(registry)@, id@, Some(v)));
                        assert(registry@.dom() =~= old(registry)@.dom());
                    }
                    Ok(())
                },
                Err(e) => {
                    proof {
                        assert(false);
                    }
                    Err(e)
                },
            }
        },
        Err((e, _)) => {
            proof {
                assert(false);
            }
            Err(e)
        },
    }
}

} // verus!
