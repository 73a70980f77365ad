//! Tests for the interaction stores and the storage factory.

use api_simulator::errors::SimError;
use api_simulator::models::{HttpRequest, HttpResponse, StorageConfig};
use api_simulator::storage::{
    has_json_extension, FileSystemStorage, MemoryStorage, StorageBackend, StorageFactory,
};

fn req(path: &str) -> HttpRequest {
    HttpRequest {
        method: "GET".to_string(),
        path: path.to_string(),
        query: None,
        scheme: None,
        authority: None,
        headers: vec![("Accept".to_string(), b"*/*".to_vec())],
        body: b"req".to_vec(),
    }
}

fn resp(body: &[u8]) -> HttpResponse {
    HttpResponse { status: 200, headers: vec![], body: body.to_vec() }
}

#[test]
fn memory_store_and_list() {
    let mut store = MemoryStorage::new();
    assert_eq!(store.get_interactions("s1").unwrap().len(), 0);
    store.store_interaction("s1", &req("/a"), &resp(b"one")).unwrap();
    store.store_interaction("s1", &req("/b"), &resp(b"two")).unwrap();
    store.store_interaction("other", &req("/c"), &resp(b"three")).unwrap();
    let listed = store.get_interactions("s1").unwrap();
    assert_eq!(listed.len(), 2);
    assert_eq!(listed[0].0.path, "/a");
    assert_eq!(listed[0].1.body, b"one".to_vec());
    assert_eq!(listed[1].0.path, "/b");
    assert_eq!(store.get_interactions("other").unwrap().len(), 1);
}

#[test]
fn memory_store_assigns_uuid_ids_and_timestamps() {
    let mut store = MemoryStorage::new();
    store.store_interaction("s1", &req("/a"), &resp(b"one")).unwrap();
    store.store_interaction("s1", &req("/b"), &resp(b"two")).unwrap();
    let entry = store.interactions.iter().find(|e| e.0 == "s1").unwrap();
    assert_eq!(entry.1[0].id.len(), 36);
    assert_eq!(entry.1[1].id.len(), 36);
    // Two fresh UUIDs collide with negligible probability.
    assert_ne!(entry.1[0].id, entry.1[1].id);
    assert!(entry.1[0].timestamp > 0);
}

#[test]
fn memory_clear_removes_only_that_session() {
    let mut store = MemoryStorage::new();
    store.store_interaction("s1", &req("/a"), &resp(b"one")).unwrap();
    store.store_interaction("s2", &req("/b"), &resp(b"two")).unwrap();
    store.clear_interactions("s1").unwrap();
    assert_eq!(store.get_interactions("s1").unwrap().len(), 0);
    assert_eq!(store.get_interactions("s2").unwrap().len(), 1);
    // Clearing an unknown session is a no-op that succeeds.
    store.clear_interactions("missing").unwrap();
}

#[test]
fn memory_store_rejects_bad_captures() {
    let mut store = MemoryStorage::new();
    let mut bad = req("/a");
    bad.headers.push(("X-Bin".to_string(), vec![0xff]));
    assert_eq!(
        store.store_interaction("s1", &bad, &resp(b"x")).unwrap_err(),
        SimError::EncodingError
    );
    assert_eq!(store.get_interactions("s1").unwrap().len(), 0);
}

#[test]
fn filesystem_paths() {
    let fs = FileSystemStorage::new("/tmp/rec");
    assert_eq!(fs.get_session_path("fs1"), "/tmp/rec/fs1");
    assert_eq!(
        fs.get_interaction_path("fs1", "0000-1111"),
        "/tmp/rec/fs1/0000-1111.json"
    );
}

#[test]
fn json_extension_filter() {
    assert!(has_json_extension("abc.json"));
    assert!(has_json_extension(".json"));
    assert!(!has_json_extension("abc.txt"));
    assert!(!has_json_extension("json"));
    assert!(!has_json_extension("abc.JSON"));
}

#[test]
fn factory_selects_backend_by_type() {
    let mem = StorageFactory::create_storage(&StorageConfig {
        type_: "memory".to_string(),
        path: "./recordings".to_string(),
    })
    .unwrap();
    assert!(matches!(mem, StorageBackend::Memory(_)));

    let fs = StorageFactory::create_storage(&StorageConfig {
        type_: "filesystem".to_string(),
        path: "/tmp/rec".to_string(),
    })
    .unwrap();
    match fs {
        StorageBackend::FileSystem(f) => assert_eq!(f.base_path, "/tmp/rec"),
        StorageBackend::Memory(_) => panic!("expected the filesystem backend"),
    }

    assert_eq!(
        StorageFactory::create_storage(&StorageConfig {
            type_: "cloud".to_string(),
            path: String::new(),
        })
        .unwrap_err(),
        SimError::StorageError
    );
}
