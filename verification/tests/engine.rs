//! Manifests, diffing, version chains, recovery and merging.

use minesave::backup::hash::hash;
use minesave::backup::manifest::{build_manifest, diff, TreeSnapshot};
use minesave::backup::save::{next_timestamp, MinecraftSave, MinecraftSaveVersion,
    MinecraftSaveVersionType};
use minesave::backup::store::{create_full_copy_with_hash, BlobStore};
use minesave::utils::{file_name_of, report_err};

fn tree_of(files: &[(&str, &[u8])]) -> TreeSnapshot {
    let mut tree = TreeSnapshot::new();
    for (path, content) in files {
        assert!(tree.add_file(path.to_string(), content.to_vec()));
    }
    tree
}

#[test]
fn build_manifest_records_every_file_hash() {
    let tree = tree_of(&[("a.txt", b"1"), ("b.txt", b"2")]);
    let m = build_manifest(&tree);
    assert_eq!(m.len(), 2);
    assert_eq!(m.get(&"a.txt".to_string()), Some(&hash(b"1")));
    assert_eq!(m.get(&"b.txt".to_string()), Some(&hash(b"2")));
    assert_eq!(m.get(&"c.txt".to_string()), None);
}

#[test]
fn diff_is_empty_exactly_when_everything_matches() {
    let tree = tree_of(&[("a.txt", b"1"), ("b.txt", b"2")]);
    let m = build_manifest(&tree);
    assert_eq!(diff(&tree, &m).len(), 0);

    let changed = tree_of(&[("a.txt", b"3"), ("b.txt", b"2")]);
    let d = diff(&changed, &m);
    assert_eq!(d, vec!["a.txt".to_string()]);

    let grown = tree_of(&[("a.txt", b"1"), ("b.txt", b"2"), ("c.txt", b"9")]);
    let d2 = diff(&grown, &m);
    assert_eq!(d2, vec!["c.txt".to_string()]);
}

#[test]
fn adding_a_file_twice_is_rejected() {
    let mut tree = TreeSnapshot::new();
    assert!(tree.add_file("a.txt".to_string(), b"1".to_vec()));
    assert!(!tree.add_file("a.txt".to_string(), b"2".to_vec()));
    assert_eq!(tree.get(&"a.txt".to_string()), Some(&b"1".to_vec()));
}

#[test]
fn full_copy_pass_stores_every_file() {
    let tree = tree_of(&[("a.txt", b"1"), ("b.txt", b"2")]);
    let mut store = BlobStore::new(3);
    let m = create_full_copy_with_hash(&tree, &mut store);
    assert_eq!(m.len(), 2);
    assert_eq!(store.blob_count(), 2);
    assert_eq!(store.load(&hash(b"1")).unwrap(), b"1".to_vec());
}

fn recover_as_pairs(version: &MinecraftSaveVersion, store: &BlobStore) -> Vec<(String, Vec<u8>)> {
    let recovered = version.recover(store).map_err(|_| "recovery failed").unwrap();
    let mut pairs: Vec<(String, Vec<u8>)> = recovered
        .files
        .iter()
        .map(|f| (f.path.clone(), f.content.clone()))
        .collect();
    pairs.sort();
    pairs
}

#[test]
fn full_then_incremental_scenario_recovers_both_states() {
    let mut store = BlobStore::new(3);
    let tree1 = tree_of(&[("a.txt", b"1"), ("b.txt", b"2")]);
    let v1 = MinecraftSaveVersion::create(
        MinecraftSaveVersionType::Full,
        &tree1,
        None,
        "first".to_string(),
        10,
        &mut store,
    )
    .map_err(|(e, _)| e)
    .unwrap();
    assert_eq!(v1.version_type, MinecraftSaveVersionType::Full);
    assert_eq!(
        recover_as_pairs(&v1, &store),
        vec![
            ("a.txt".to_string(), b"1".to_vec()),
            ("b.txt".to_string(), b"2".to_vec()),
        ]
    );

    let tree2 = tree_of(&[("a.txt", b"3"), ("b.txt", b"2")]);
    let v2 = MinecraftSaveVersion::create(
        MinecraftSaveVersionType::IncrementalFile,
        &tree2,
        Some(Box::new(v1)),
        "second".to_string(),
        20,
        &mut store,
    )
    .map_err(|(e, _)| e)
    .unwrap();
    assert_eq!(v2.version_type, MinecraftSaveVersionType::IncrementalFile);
    // only the changed file added a blob: 1, 2 and 3 are stored once each
    assert_eq!(store.blob_count(), 3);
    assert_eq!(
        recover_as_pairs(&v2, &store),
        vec![
            ("a.txt".to_string(), b"3".to_vec()),
            ("b.txt".to_string(), b"2".to_vec()),
        ]
    );
    // the previous version still recovers to the earlier state
    let v1_again = v2.prev.as_ref().unwrap();
    assert_eq!(
        recover_as_pairs(v1_again, &store),
        vec![
            ("a.txt".to_string(), b"1".to_vec()),
            ("b.txt".to_string(), b"2".to_vec()),
        ]
    );
}

#[test]
fn incremental_without_ancestor_falls_back_to_full() {
    let mut store = BlobStore::new(3);
    let tree = tree_of(&[("a.txt", b"1")]);
    let v = MinecraftSaveVersion::create(
        MinecraftSaveVersionType::IncrementalFile,
        &tree,
        None,
        String::new(),
        5,
        &mut store,
    )
    .map_err(|(e, _)| e)
    .unwrap();
    assert_eq!(v.version_type, MinecraftSaveVersionType::Full);
    assert!(v.prev.is_none());
}

#[test]
fn snapshot_versions_are_rejected() {
    let mut store = BlobStore::new(3);
    let tree = tree_of(&[("a.txt", b"1")]);
    let r = MinecraftSaveVersion::create(
        MinecraftSaveVersionType::Snapshot,
        &tree,
        None,
        String::new(),
        5,
        &mut store,
    );
    match r {
        Err((e, back)) => {
            assert!(matches!(e, minesave::error::MyError::IllegalArgument { .. }));
            assert!(back.is_none());
        },
        Ok(_) => panic!("a snapshot version should be rejected"),
    }
}

#[test]
fn merging_a_chain_yields_an_equivalent_full_version() {
    let mut store = BlobStore::new(3);
    let tree1 = tree_of(&[("a.txt", b"1"), ("b.txt", b"2")]);
    let v1 = MinecraftSaveVersion::create(
        MinecraftSaveVersionType::Full,
        &tree1,
        None,
        "base".to_string(),
        10,
        &mut store,
    )
    .map_err(|(e, _)| e)
    .unwrap();
    let tree2 = tree_of(&[("a.txt", b"3"), ("b.txt", b"2")]);
    let v2 = MinecraftSaveVersion::create(
        MinecraftSaveVersionType::IncrementalFile,
        &tree2,
        Some(Box::new(v1)),
        "incr".to_string(),
        20,
        &mut store,
    )
    .map_err(|(e, _)| e)
    .unwrap();

    let blobs_before = store.blob_count();
    let merged = v2.merge(&mut store, 30).unwrap();
    assert_eq!(merged.version_type, MinecraftSaveVersionType::Full);
    assert!(merged.prev.is_none());
    assert_eq!(merged.timestamp, 30);
    assert_eq!(
        merged.description,
        "Merged from incr and previous versions".to_string()
    );
    // flattening stores nothing new: every blob was already present
    assert_eq!(store.blob_count(), blobs_before);
    assert_eq!(
        recover_as_pairs(&merged, &store),
        vec![
            ("a.txt".to_string(), b"3".to_vec()),
            ("b.txt".to_string(), b"2".to_vec()),
        ]
    );
}

#[test]
fn timestamps_move_strictly_forward_within_a_chain() {
    assert_eq!(next_timestamp(5, 10), 10);
    assert_eq!(next_timestamp(5, 5), 6);
    assert_eq!(next_timestamp(5, 3), 6);
    assert_eq!(next_timestamp(0, 0), 1);
}

#[test]
fn a_new_save_takes_its_name_from_the_path() {
    let save = MinecraftSave::create("some-id".to_string(), "saves/New World");
    assert_eq!(save.id, "some-id");
    assert_eq!(save.name, "New World");
    assert_eq!(save.target, "saves/New World");
    assert!(save.latest_version.is_none());
    assert_eq!(save.description, "");
}

#[test]
fn file_name_of_takes_the_final_segment() {
    assert_eq!(file_name_of("saves/world"), "world");
    assert_eq!(file_name_of("world"), "world");
    assert_eq!(file_name_of("a/b/c"), "c");
    assert_eq!(file_name_of("a/b/"), "");
}

#[test]
fn report_err_composes_context_and_detail() {
    assert_eq!(report_err("Failed to open state file", "not found"),
        "Failed to open state file: not found");
}

#[test]
fn version_timestamps_list_the_chain_newest_first() {
    let mut store = BlobStore::new(3);
    let tree1 = tree_of(&[("a.txt", b"1")]);
    let v1 = MinecraftSaveVersion::create(
        MinecraftSaveVersionType::Full, &tree1, None, String::new(), 10, &mut store,
    ).map_err(|(e, _)| e).unwrap();
    let tree2 = tree_of(&[("a.txt", b"2")]);
    let v2 = MinecraftSaveVersion::create(
        MinecraftSaveVersionType::IncrementalFile, &tree2, Some(Box::new(v1)), String::new(), 20,
        &mut store,
    ).map_err(|(e, _)| e).unwrap();
    assert_eq!(v2.version_timestamps(), vec![20, 10]);
}

#[test]
fn find_version_selects_by_timestamp() {
    let mut store = BlobStore::new(3);
    let tree1 = tree_of(&[("a.txt", b"1")]);
    let v1 = MinecraftSaveVersion::create(
        MinecraftSaveVersionType::Full, &tree1, None, String::new(), 10, &mut store,
    ).map_err(|(e, _)| e).unwrap();
    let tree2 = tree_of(&[("a.txt", b"2")]);
    let v2 = MinecraftSaveVersion::create(
        MinecraftSaveVersionType::IncrementalFile, &tree2, Some(Box::new(v1)), String::new(), 20,
        &mut store,
    ).map_err(|(e, _)| e).unwrap();
    assert_eq!(v2.find_version(10).unwrap().timestamp, 10);
    assert_eq!(v2.find_version(20).unwrap().timestamp, 20);
    assert!(v2.find_version(15).is_none());
}

#[test]
fn an_empty_tree_backs_up_and_recovers_empty() {
    let mut store = BlobStore::new(3);
    let tree = TreeSnapshot::new();
    let v = MinecraftSaveVersion::create(
        MinecraftSaveVersionType::Full, &tree, None, String::new(), 1, &mut store,
    ).map_err(|(e, _)| e).unwrap();
    assert_eq!(v.manifest.len(), 0);
    assert_eq!(store.blob_count(), 0);
    let recovered = v.recover(&store).map_err(|_| "recovery failed").unwrap();
    assert!(recovered.files.is_empty());
}
