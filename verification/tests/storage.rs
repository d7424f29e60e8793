use rostl::storage::{MemStore, PageStorage, MEM_PAGE_SIZE};

#[test]
fn memstore_starts_zeroed() {
    let store = MemStore::open("blob".to_string(), 3).unwrap();
    assert_eq!(store.pages_len(), 3);
    assert_eq!(MemStore::page_size(), MEM_PAGE_SIZE);
    let mut buf = vec![7u8; MEM_PAGE_SIZE];
    store.read_page(2, &mut buf).unwrap();
    assert!(buf.iter().all(|b| *b == 0));
}

#[test]
fn memstore_read_after_write() {
    let mut store = MemStore::open("blob".to_string(), 4).unwrap();
    let page: Vec<u8> = (0..MEM_PAGE_SIZE).map(|i| (i % 251) as u8).collect();
    store.write_page(1, &page).unwrap();
    let mut buf = vec![0u8; MEM_PAGE_SIZE];
    store.read_page(1, &mut buf).unwrap();
    assert_eq!(buf, page);
    store.read_page(0, &mut buf).unwrap();
    assert!(buf.iter().all(|b| *b == 0));
    store.read_page(2, &mut buf).unwrap();
    assert!(buf.iter().all(|b| *b == 0));
}

#[test]
fn memstore_last_write_wins() {
    let mut store = MemStore::open("blob".to_string(), 2).unwrap();
    store.write_page(0, &vec![1u8; MEM_PAGE_SIZE]).unwrap();
    store.write_page(0, &vec![2u8; MEM_PAGE_SIZE]).unwrap();
    let mut buf = vec![0u8; MEM_PAGE_SIZE];
    store.read_page(0, &mut buf).unwrap();
    assert!(buf.iter().all(|b| *b == 2));
}
