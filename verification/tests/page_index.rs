use nexora::index::page_index::constants::MAX_NODE_PAGE_INDEX_RECORD_COUNT;
use nexora::index::page_index::node_page_index_store::NodePageIndexStore;
use nexora::storage::models::PageId;
use nexora::storage::page_store::PageStore;
use nexora::storage::storage_manager::StorageManager;

/// The bytes of every page, in order: what a file holding the store contains.
fn file_bytes(store: &PageStore) -> Vec<u8> {
    let mut out = Vec::new();
    for i in 0..store.page_count() {
        out.extend_from_slice(store.page_bytes(i));
    }
    out
}

#[test]
fn test_insert_and_lookup() {
    let store = PageStore::create();
    let mut manager = StorageManager::from_page_store(store).unwrap();
    let mut index = NodePageIndexStore::new(&mut manager);

    index.insert(0, PageId(42)).unwrap();
    assert_eq!(index.lookup(0).unwrap(), PageId(42));
}

#[test]
fn test_multiple_inserts_single_dir_page() {
    let store = PageStore::create();
    let mut manager = StorageManager::from_page_store(store).unwrap();
    let mut index = NodePageIndexStore::new(&mut manager);

    for i in 0..10usize {
        index.insert(i, PageId(100 + i as u64)).unwrap();
    }
    for i in 0..10usize {
        assert_eq!(index.lookup(i).unwrap(), PageId(100 + i as u64));
    }
}

#[test]
fn test_dir_page_overflow() {
    let store = PageStore::create();
    let mut manager = StorageManager::from_page_store(store).unwrap();
    let mut index = NodePageIndexStore::new(&mut manager);

    let count = MAX_NODE_PAGE_INDEX_RECORD_COUNT + 5;
    for i in 0..count {
        index.insert(i, PageId(200 + i as u64)).unwrap();
    }
    for i in 0..count {
        assert_eq!(index.lookup(i).unwrap(), PageId(200 + i as u64));
    }
}

#[test]
fn test_index_persistence() {
    let bytes = {
        let store = PageStore::create();
        let mut manager = StorageManager::from_page_store(store).unwrap();
        {
            let mut index = NodePageIndexStore::new(&mut manager);
            index.insert(0, PageId(10)).unwrap();
            index.insert(1, PageId(11)).unwrap();
            index.insert(2, PageId(12)).unwrap();
        }
        manager.close().unwrap();
        file_bytes(&manager.into_store())
    };

    {
        let store = PageStore::from_bytes(&bytes);
        let mut manager = StorageManager::from_page_store(store).unwrap();
        let index = NodePageIndexStore::new(&mut manager);
        assert_eq!(index.lookup(0).unwrap(), PageId(10));
        assert_eq!(index.lookup(1).unwrap(), PageId(11));
        assert_eq!(index.lookup(2).unwrap(), PageId(12));
    }
}

#[test]
fn test_multi_dir_page_persistence() {
    let count = MAX_NODE_PAGE_INDEX_RECORD_COUNT + 3;

    let bytes = {
        let store = PageStore::create();
        let mut manager = StorageManager::from_page_store(store).unwrap();
        {
            let mut index = NodePageIndexStore::new(&mut manager);
            for i in 0..count {
                index.insert(i, PageId(300 + i as u64)).unwrap();
            }
        }
        manager.close().unwrap();
        file_bytes(&manager.into_store())
    };

    {
        let store = PageStore::from_bytes(&bytes);
        let mut manager = StorageManager::from_page_store(store).unwrap();
        let index = NodePageIndexStore::new(&mut manager);
        for i in 0..count {
            assert_eq!(index.lookup(i).unwrap(), PageId(300 + i as u64));
        }
    }
}
