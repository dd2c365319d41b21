use hellodb::sync::backend::SyncBackend;
use hellodb::sync::memory_backend::MemorySyncBackend;

#[test]
fn memory_backend_put_get_roundtrip() {
    let mut backend = MemorySyncBackend::new();
    backend.put_blob("ns/data/1.bin", b"hello").unwrap();
    let data = backend.get_blob("ns/data/1.bin").unwrap().unwrap();
    assert_eq!(data, b"hello");
}

#[test]
fn memory_backend_get_missing_returns_none() {
    let backend = MemorySyncBackend::new();
    assert!(backend.get_blob("nonexistent").unwrap().is_none());
}

#[test]
fn memory_backend_list_blobs_by_prefix() {
    let mut backend = MemorySyncBackend::new();
    backend.put_blob("commerce/deltas/a/1.delta", b"d1").unwrap();
    backend.put_blob("commerce/deltas/a/2.delta", b"d2").unwrap();
    backend.put_blob("commerce/deltas/b/1.delta", b"d3").unwrap();
    backend.put_blob("health/deltas/a/1.delta", b"d4").unwrap();

    let commerce = backend.list_blobs("commerce/deltas/").unwrap();
    assert_eq!(commerce.len(), 3);

    let device_a = backend.list_blobs("commerce/deltas/a/").unwrap();
    assert_eq!(device_a.len(), 2);
}

#[test]
fn memory_backend_delete_blob() {
    let mut backend = MemorySyncBackend::new();
    backend.put_blob("key", b"value").unwrap();
    assert!(backend.get_blob("key").unwrap().is_some());
    backend.delete_blob("key").unwrap();
    assert!(backend.get_blob("key").unwrap().is_none());
}

#[test]
fn memory_backend_delete_missing_is_noop() {
    let mut backend = MemorySyncBackend::new();
    backend.delete_blob("nonexistent").unwrap();
}

#[test]
fn memory_backend_overwrite_existing() {
    let mut backend = MemorySyncBackend::new();
    backend.put_blob("key", b"v1").unwrap();
    backend.put_blob("key", b"v2").unwrap();
    let data = backend.get_blob("key").unwrap().unwrap();
    assert_eq!(data, b"v2");
    assert_eq!(backend.blob_count(), 1);
}

#[test]
fn memory_backend_lists_keys_in_byte_order() {
    let mut backend = MemorySyncBackend::new();
    backend.put_blob("p/c", b"3").unwrap();
    backend.put_blob("p/a", b"1").unwrap();
    backend.put_blob("q/z", b"9").unwrap();
    backend.put_blob("p/b", b"2").unwrap();
    let keys = backend.list_blobs("p/").unwrap();
    assert_eq!(keys, vec!["p/a".to_string(), "p/b".to_string(), "p/c".to_string()]);
    assert_eq!(backend.list_blobs("").unwrap().len(), 4);
    assert!(backend.list_blobs("r").unwrap().is_empty());
}
