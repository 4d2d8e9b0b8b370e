//! Paging through keys with a prefix.

use kvdb_rs::StorageEngine;

#[test]
fn prefix_scan_page_forward_and_reverse() {
    let mut storage = StorageEngine::new();
    let cf = kvdb_rs::storage::CF_SUBKEY;
    let prefix = b"pfx:";

    for i in 0u8..5 {
        let key = [prefix.as_slice(), &[i]].concat();
        storage.put(cf, &key, &[i]).unwrap();
    }

    let (page, next) = storage.prefix_scan_page(cf, prefix, &[], 2).unwrap();
    assert_eq!(page.len(), 2);
    assert!(next.is_some());
    assert_eq!(page[0].0, [prefix.as_slice(), &[0]].concat());
    assert_eq!(page[1].0, [prefix.as_slice(), &[1]].concat());

    let (page2, next2) = storage
        .prefix_scan_page(cf, prefix, next.as_deref().unwrap(), 2)
        .unwrap();
    assert_eq!(page2.len(), 2);
    assert!(next2.is_some());
    assert_eq!(page2[0].0, [prefix.as_slice(), &[2]].concat());
    assert_eq!(page2[1].0, [prefix.as_slice(), &[3]].concat());

    let (page3, next3) = storage
        .prefix_scan_page(cf, prefix, next2.as_deref().unwrap(), 2)
        .unwrap();
    assert_eq!(page3.len(), 1);
    assert!(next3.is_none());
    assert_eq!(page3[0].0, [prefix.as_slice(), &[4]].concat());

    let (rev_page, rev_next) = storage
        .prefix_scan_page_reverse(cf, prefix, &[], 2)
        .unwrap();
    assert_eq!(rev_page.len(), 2);
    assert!(rev_next.is_some());
    assert_eq!(rev_page[0].0, [prefix.as_slice(), &[4]].concat());
    assert_eq!(rev_page[1].0, [prefix.as_slice(), &[3]].concat());

    let (rev_page2, rev_next2) = storage
        .prefix_scan_page_reverse(cf, prefix, rev_next.as_deref().unwrap(), 2)
        .unwrap();
    assert_eq!(rev_page2.len(), 2);
    assert!(rev_next2.is_some());
    assert_eq!(rev_page2[0].0, [prefix.as_slice(), &[2]].concat());
    assert_eq!(rev_page2[1].0, [prefix.as_slice(), &[1]].concat());

    let (rev_page3, rev_next3) = storage
        .prefix_scan_page_reverse(cf, prefix, rev_next2.as_deref().unwrap(), 2)
        .unwrap();
    assert_eq!(rev_page3.len(), 1);
    assert!(rev_next3.is_none());
    assert_eq!(rev_page3[0].0, [prefix.as_slice(), &[0]].concat());
}
