//! The request surface, the registries, tasks and settings.

use minesave::api::{action_from_code, handle_request, parse_u8, version_type_from_code, Action,
    ApiData};
use minesave::backup::manifest::TreeSnapshot;
use minesave::backup::save::{MinecraftSave, MinecraftSaveVersionType};
use minesave::backup::store::BlobStore;
use minesave::backup::{AppState, MinecraftSaveCollection, SaveBackupConfiguration};
use minesave::error::MyError;
use minesave::settings::{daemon_backup_duration, default_compression_level, Settings};
use minesave::tasks::{record_outcome, spawn, wait_all, Task, TaskInfo, TaskStatus};
use minesave::{effective_compression_level, MAX_COMPRESSION_LEVEL};

fn tree_of(files: &[(&str, &[u8])]) -> TreeSnapshot {
    let mut tree = TreeSnapshot::new();
    for (path, content) in files {
        assert!(tree.add_file(path.to_string(), content.to_vec()));
    }
    tree
}

fn registry_with(id: &str, path: &str) -> MinecraftSaveCollection {
    let mut registry = MinecraftSaveCollection::new();
    registry.upsert(MinecraftSave::create(id.to_string(), path));
    registry
}

fn backup_request(id: &str, code: &str) -> ApiData {
    ApiData { action: Action::Backup, payload: vec![id.to_string(), code.to_string()] }
}

#[test]
fn parse_u8_accepts_decimal_and_rejects_the_rest() {
    assert_eq!(parse_u8("0").unwrap(), 0);
    assert_eq!(parse_u8("255").unwrap(), 255);
    assert_eq!(parse_u8("007").unwrap(), 7);
    assert!(parse_u8("256").is_err());
    assert!(parse_u8("").is_err());
    assert!(parse_u8("12a").is_err());
    assert!(parse_u8("-1").is_err());
    assert!(parse_u8("9999999999999999999999").is_err());
}

#[test]
fn action_codes_map_exhaustively() {
    assert_eq!(action_from_code(0).unwrap(), Action::List);
    assert_eq!(action_from_code(1).unwrap(), Action::Backup);
    assert!(matches!(action_from_code(2), Err(MyError::IllegalArgument { .. })));
}

#[test]
fn version_type_codes_map_exhaustively() {
    assert_eq!(version_type_from_code(0).unwrap(), MinecraftSaveVersionType::Full);
    assert_eq!(version_type_from_code(1).unwrap(), MinecraftSaveVersionType::IncrementalFile);
    assert_eq!(version_type_from_code(2).unwrap(), MinecraftSaveVersionType::Snapshot);
    assert_eq!(version_type_from_code(255).unwrap(), MinecraftSaveVersionType::Default);
    assert!(matches!(version_type_from_code(3), Err(MyError::IllegalArgument { .. })));
}

#[test]
fn write_api_help_lists_the_protocol() {
    let mut out: Vec<String> = Vec::new();
    minesave::api::write_api_help(&mut out);
    assert_eq!(out.len(), 6);
    assert_eq!(out[0], "MineSave API help");
    assert_eq!(out[5], "backup type: 0=Full 1=IncrementalFile 2=Snapshot 255=Default");
}

#[test]
fn backup_request_for_an_unknown_id_fails_without_mutating() {
    let mut registry = registry_with("s1", "saves/world");
    let mut store = BlobStore::new(3);
    let tree = tree_of(&[("a.txt", b"1")]);
    let r = handle_request(&backup_request("nope", "0"), &tree, &mut registry, &mut store, 1);
    assert!(matches!(r, Err(MyError::IllegalArgument { .. })));
    assert_eq!(registry.list().len(), 1);
    assert!(registry.get(&"s1".to_string()).unwrap().latest_version.is_none());
    assert_eq!(store.blob_count(), 0);
}

#[test]
fn rejections_report_the_offending_value() {
    let mut registry = registry_with("s1", "saves/world");
    let mut store = BlobStore::new(3);
    let tree = tree_of(&[("a.txt", b"1")]);

    let r = handle_request(&backup_request("s1", "abc"), &tree, &mut registry, &mut store, 1);
    match r {
        Err(MyError::IllegalArgument { name, value, expected }) => {
            assert_eq!(name, "type");
            assert_eq!(value, "abc");
            assert_eq!(expected, "int");
        },
        other => panic!("expected an illegal-argument error, got {:?}", other),
    }

    let r = handle_request(&backup_request("s1", "7"), &tree, &mut registry, &mut store, 1);
    match r {
        Err(MyError::IllegalArgument { name, value, expected }) => {
            assert_eq!(name, "type");
            assert_eq!(value, "7");
            assert_eq!(expected, "0, 1, 255");
        },
        other => panic!("expected an illegal-argument error, got {:?}", other),
    }

    let r = handle_request(&backup_request("nope", "0"), &tree, &mut registry, &mut store, 1);
    match r {
        Err(MyError::IllegalArgument { name, value, expected }) => {
            assert_eq!(name, "id");
            assert_eq!(value, "nope");
            assert_eq!(expected, "a registered save id");
        },
        other => panic!("expected an illegal-argument error, got {:?}", other),
    }

    match version_type_from_code(3) {
        Err(MyError::IllegalArgument { name, value, expected }) => {
            assert_eq!(name, "type");
            assert_eq!(value, "3");
            assert_eq!(expected, "0, 1, 2, 255");
        },
        other => panic!("expected an illegal-argument error, got {:?}", other),
    }
    match action_from_code(217) {
        Err(MyError::IllegalArgument { value, .. }) => assert_eq!(value, "217"),
        other => panic!("expected an illegal-argument error, got {:?}", other),
    }
}

#[test]
fn backup_request_with_a_bad_type_code_fails_without_mutating() {
    let mut registry = registry_with("s1", "saves/world");
    let mut store = BlobStore::new(3);
    let tree = tree_of(&[("a.txt", b"1")]);
    for code in ["7", "abc", "2", "256"] {
        let r = handle_request(&backup_request("s1", code), &tree, &mut registry, &mut store, 1);
        assert!(matches!(r, Err(MyError::IllegalArgument { .. })));
    }
    assert!(registry.get(&"s1".to_string()).unwrap().latest_version.is_none());
    assert_eq!(store.blob_count(), 0);
}

#[test]
fn backup_requests_build_a_version_chain() {
    let mut registry = registry_with("s1", "saves/world");
    let mut store = BlobStore::new(3);

    let tree1 = tree_of(&[("a.txt", b"1"), ("b.txt", b"2")]);
    handle_request(&backup_request("s1", "0"), &tree1, &mut registry, &mut store, 10).unwrap();
    {
        let save = registry.get(&"s1".to_string()).unwrap();
        let v1 = save.latest_version.as_ref().unwrap();
        assert_eq!(v1.version_type, MinecraftSaveVersionType::Full);
        assert!(v1.prev.is_none());
        assert_eq!(v1.timestamp, 10);
    }

    let tree2 = tree_of(&[("a.txt", b"3"), ("b.txt", b"2")]);
    handle_request(&backup_request("s1", "1"), &tree2, &mut registry, &mut store, 20).unwrap();
    let save = registry.get(&"s1".to_string()).unwrap();
    let v2 = save.latest_version.as_ref().unwrap();
    assert_eq!(v2.version_type, MinecraftSaveVersionType::IncrementalFile);
    assert_eq!(v2.prev.as_ref().unwrap().timestamp, 10);
    assert_eq!(store.blob_count(), 3);

    let recovered = v2.recover(&store).map_err(|_| "recovery failed").unwrap();
    assert_eq!(recovered.get(&"a.txt".to_string()), Some(&b"3".to_vec()));
    assert_eq!(recovered.get(&"b.txt".to_string()), Some(&b"2".to_vec()));
}

#[test]
fn backups_of_two_distinct_saves_keep_both_versions() {
    let mut registry = MinecraftSaveCollection::new();
    registry.upsert(MinecraftSave::create("s1".to_string(), "saves/one"));
    registry.upsert(MinecraftSave::create("s2".to_string(), "saves/two"));
    let mut store = BlobStore::new(3);

    let tree1 = tree_of(&[("a.txt", b"1")]);
    let tree2 = tree_of(&[("b.txt", b"2")]);
    handle_request(&backup_request("s1", "0"), &tree1, &mut registry, &mut store, 10).unwrap();
    handle_request(&backup_request("s2", "0"), &tree2, &mut registry, &mut store, 11).unwrap();

    // neither save's newest-version pointer was lost or overwritten
    let v1 = registry.get(&"s1".to_string()).unwrap().latest_version.as_ref().unwrap().timestamp;
    let v2 = registry.get(&"s2".to_string()).unwrap().latest_version.as_ref().unwrap().timestamp;
    assert_eq!(v1, 10);
    assert_eq!(v2, 11);
}

#[test]
fn refresh_registers_each_discovered_path_once() {
    let mut registry = MinecraftSaveCollection::new();
    let discovered = vec!["saves/world1".to_string(), "saves/world2".to_string()];
    let new_ids = registry.refresh(&discovered);
    assert_eq!(new_ids.len(), 2);
    assert_eq!(registry.list().len(), 2);
    // ids are freshly drawn UUIDs in their 36-character hyphenated form
    for (j, id) in new_ids.iter().enumerate() {
        assert_eq!(id.len(), 36);
        let save = registry.get(id).unwrap();
        assert_eq!(save.target, discovered[j]);
        assert!(save.latest_version.is_none());
    }
    let again = registry.refresh(&discovered);
    assert!(again.is_empty());
    assert_eq!(registry.list().len(), 2);
    assert_eq!(registry.scanned_saves.len(), 2);
}

#[test]
fn a_save_configuration_is_derived_from_its_path() {
    let cfg = SaveBackupConfiguration::new("saves/world");
    assert_eq!(cfg.id, "bfdb79245e4f45be4e5746941a3d5756d9c0515cf11c48d3b721138265e2f010");
    assert_eq!(cfg.name, "world");
    assert_eq!(cfg.source, "saves/world");
    assert!(!cfg.init);
}

#[test]
fn integrate_scan_adds_new_directories_and_reports_vanished_ones() {
    let mut state = AppState::new();
    let found = vec!["saves/world".to_string()];
    let stale = state.integrate_scan(&found);
    assert!(stale.is_empty());
    assert_eq!(state.saves.len(), 1);
    assert_eq!(state.save_dirs, vec!["saves/world".to_string()]);

    let stale2 = state.integrate_scan(&Vec::new());
    assert_eq!(
        stale2,
        vec!["bfdb79245e4f45be4e5746941a3d5756d9c0515cf11c48d3b721138265e2f010".to_string()]
    );
    // the configuration itself is kept: removal is an operator's decision
    assert_eq!(state.saves.len(), 1);
}

#[test]
fn tasks_are_spawned_pending_and_settled_by_the_barrier() {
    let mut tasks: Vec<Task> = Vec::new();
    let id0 = spawn(&mut tasks, "backup one".to_string(), TaskInfo::Backup {
        for_id: Some("s1".to_string()),
        description: String::new(),
    });
    let id1 = spawn(&mut tasks, "recover one".to_string(), TaskInfo::Recover {
        id: "s1".to_string(),
        timestamp: 10,
    });
    assert_eq!((id0, id1), (0, 1));
    assert!(matches!(tasks[0].status, TaskStatus::Pending));

    record_outcome(&mut tasks, 0, true, String::new());
    assert_eq!(tasks[0].status, TaskStatus::Succeeded);

    let outcomes = vec![(false, "ignored: already settled".to_string()), (false, "boom".to_string())];
    wait_all(&mut tasks, &outcomes);
    assert_eq!(tasks[0].status, TaskStatus::Succeeded);
    assert_eq!(tasks[1].status, TaskStatus::Failed("boom".to_string()));
    assert!(tasks.iter().all(|t| !matches!(t.status, TaskStatus::Pending)));
}

#[test]
fn settings_default_and_validation() {
    let s = Settings::default();
    assert_eq!(s.compression_level, 6);
    assert_eq!(s.daemon_backup_duration, 3600);
    assert_eq!(default_compression_level(), 6);
    assert_eq!(daemon_backup_duration(), 3600);
    assert!(!s.sync);
    assert!(s.scan_root.is_empty());

    assert_eq!(s.require_encryption_config(), Err(MyError::NotConfigured));
    let mut with_password = Settings::default();
    with_password.password = Some("SECRET-REDACTED".to_string());
    assert!(with_password.require_encryption_config().is_ok());
    let mut with_cmd = Settings::default();
    with_cmd.password_cmd = Some("pass show minesave".to_string());
    assert!(with_cmd.require_encryption_config().is_ok());
}

#[test]
fn compression_level_is_clamped_to_the_compressor_maximum() {
    assert_eq!(MAX_COMPRESSION_LEVEL, 22);
    assert_eq!(effective_compression_level(6), 6);
    assert_eq!(effective_compression_level(30), 22);
    let mut s = Settings::default();
    s.compression_level = 100;
    assert_eq!(s.effective_compression_level(), 22);
}

#[test]
fn upsert_replaces_the_save_under_an_existing_id() {
    let mut registry = registry_with("s1", "saves/one");
    registry.upsert(MinecraftSave::create("s1".to_string(), "saves/elsewhere"));
    assert_eq!(registry.list().len(), 1);
    assert_eq!(registry.get(&"s1".to_string()).unwrap().target, "saves/elsewhere");
}
