//! Reading, deleting and paging in the store.

use kvdb_rs::StorageEngine;

const CF_METADATA: &str = "metadata";
const CF_SUBKEY: &str = "subkey";

#[test]
fn bloom_filter_preserves_get_semantics() {
    let mut storage = StorageEngine::new();
    let cf = CF_METADATA;

    for i in 0..100u32 {
        let key = format!("key:{:04}", i);
        storage.put(cf, key.as_bytes(), b"value").unwrap();
    }

    for i in 0..100u32 {
        let key = format!("key:{:04}", i);
        let v = storage.get(cf, key.as_bytes()).unwrap();
        assert_eq!(v.as_deref(), Some(b"value".as_slice()));
    }

    for i in 100..200u32 {
        let key = format!("key:{:04}", i);
        let v = storage.get(cf, key.as_bytes()).unwrap();
        assert_eq!(v, None);
    }
}

#[test]
fn bloom_filter_delete_then_get() {
    let mut storage = StorageEngine::new();
    let cf = CF_METADATA;
    let key = b"delkey";

    storage.put(cf, key, b"v").unwrap();
    assert_eq!(storage.get(cf, key).unwrap(), Some(b"v".to_vec()));

    storage.delete(cf, key).unwrap();
    assert_eq!(storage.get(cf, key).unwrap(), None);
}

#[test]
fn prefix_scan_page_terminates_at_boundary() {
    let mut storage = StorageEngine::new();
    let cf = CF_SUBKEY;

    for i in 0..5u8 {
        let mut key = b"prefix_a:".to_vec();
        key.push(i);
        storage.put(cf, &key, &[i]).unwrap();
    }
    for i in 0..3u8 {
        let mut key = b"prefix_b:".to_vec();
        key.push(i);
        storage.put(cf, &key, &[i]).unwrap();
    }

    let mut all = Vec::new();
    let mut start = Vec::new();
    loop {
        let (page, next) = storage
            .prefix_scan_page(cf, b"prefix_a:", &start, 2)
            .unwrap();
        if page.is_empty() {
            break;
        }
        all.extend(page);
        match next {
            Some(k) => start = k,
            None => break,
        }
    }

    assert_eq!(all.len(), 5);
    for (k, _) in &all {
        assert!(k.starts_with(b"prefix_a:"));
    }
}

#[test]
fn prefix_scan_page_reverse_terminates_at_boundary() {
    let mut storage = StorageEngine::new();
    let cf = CF_SUBKEY;

    for i in 0..5u8 {
        let mut key = b"alpha:".to_vec();
        key.push(i);
        storage.put(cf, &key, &[i]).unwrap();
    }
    storage.put(cf, b"alpha", &[0xFF]).unwrap();

    let mut all = Vec::new();
    let mut start = Vec::new();
    loop {
        let (page, next) = storage
            .prefix_scan_page_reverse(cf, b"alpha:", &start, 2)
            .unwrap();
        if page.is_empty() {
            break;
        }
        all.extend(page);
        match next {
            Some(k) => start = k,
            None => break,
        }
    }

    assert_eq!(all.len(), 5);
    for (k, _) in &all {
        assert!(k.starts_with(b"alpha:"));
    }
}
