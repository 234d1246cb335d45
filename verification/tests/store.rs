//! Content store behaviour: hashing, round trips, deduplication, and
//! missing-blob reporting.

use minesave::backup::hash::{hash, Sha256Sum};
use minesave::backup::manifest::{Manifest, TreeSnapshot};
use minesave::backup::save::{MinecraftSaveVersion, MinecraftSaveVersionType};
use minesave::backup::store::BlobStore;
use minesave::error::MyError;

#[test]
fn hash_of_abc_is_the_known_digest() {
    let h = hash(b"abc");
    assert_eq!(
        h.to_hex(),
        "ba7816bf8f01cfea414140de5dae2223b00361a396177a9cb410ff61f20015ad"
    );
}

#[test]
fn hash_of_empty_is_the_known_digest() {
    let h = hash(b"");
    assert_eq!(
        h.to_hex(),
        "e3b0c44298fc1c149afbf4c8996fb92427ae41e4649b934ca495991b7852b855"
    );
}

#[test]
fn equal_content_hashes_equal() {
    assert_eq!(hash(b"same"), hash(b"same"));
    assert_ne!(hash(b"same"), hash(b"other"));
}

#[test]
fn store_then_load_round_trips() {
    let mut store = BlobStore::new(3);
    let content = b"hello backup world".to_vec();
    let h = store.store(&content);
    let loaded = store.load(&h).unwrap();
    assert_eq!(loaded, content);
}

#[test]
fn store_then_load_round_trips_on_compressible_data() {
    let mut store = BlobStore::new(9);
    let content = vec![7u8; 65536];
    let h = store.store(&content);
    let loaded = store.load(&h).unwrap();
    assert_eq!(loaded, content);
    // a compressed blob of highly repetitive data is far smaller than the
    // content, so the body really went through the compressor
    assert!(store.blobs[0].data.len() < content.len() / 10);
}

#[test]
fn storing_the_same_content_twice_keeps_one_blob() {
    let mut store = BlobStore::new(3);
    let content = b"duplicate me".to_vec();
    let h1 = store.store(&content);
    assert_eq!(store.blob_count(), 1);
    let h2 = store.store(&content);
    assert_eq!(h1, h2);
    assert_eq!(store.blob_count(), 1);
    let other = b"different".to_vec();
    store.store(&other);
    assert_eq!(store.blob_count(), 2);
}

#[test]
fn loading_an_absent_hash_reports_missing_blob() {
    let mut store = BlobStore::new(3);
    store.store(&b"present".to_vec());
    let absent = Sha256Sum { w0: 1, w1: 2, w2: 3, w3: 4 };
    assert_eq!(store.load(&absent), Err(MyError::MissingBlob));
}

#[test]
fn recovery_of_a_version_with_a_deleted_blob_fails_with_missing_blob() {
    let mut store = BlobStore::new(3);
    let mut tree = TreeSnapshot::new();
    assert!(tree.add_file("a.txt".to_string(), b"1".to_vec()));
    let version = MinecraftSaveVersion::create(
        MinecraftSaveVersionType::Full,
        &tree,
        None,
        String::new(),
        1,
        &mut store,
    )
    .map_err(|(e, _)| e)
    .unwrap();
    // the blob disappears from the store (corruption or an external sweep)
    let empty_store = BlobStore::new(3);
    let r = version.recover(&empty_store);
    assert_eq!(r.err().unwrap(), MyError::MissingBlob);
}

#[test]
fn recovery_without_a_full_base_fails_with_missing_ancestor() {
    let store = BlobStore::new(3);
    let version = MinecraftSaveVersion {
        version_type: MinecraftSaveVersionType::IncrementalFile,
        description: String::new(),
        timestamp: 1,
        manifest: Manifest::new(),
        prev: None,
    };
    assert_eq!(version.recover(&store).err().unwrap(), MyError::MissingAncestor);
}
