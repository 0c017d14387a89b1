use nexora::storage::constants::{PAGE_SIZE, SENTINEL_PAGE_ID};
use nexora::storage::error::NexoraStorageError;
use nexora::storage::models::{NexoraFooter, NexoraHeader, PageId, PageType};
use nexora::storage::page_store::PageStore;
use nexora::storage::storage_manager::StorageManager;

fn file_bytes(store: &PageStore) -> Vec<u8> {
    let mut out = Vec::new();
    for i in 0..store.page_count() {
        out.extend_from_slice(store.page_bytes(i));
    }
    out
}

#[test]
fn new_store_opens_with_initial_footer() {
    let manager = StorageManager::from_page_store(PageStore::create()).unwrap();
    assert_eq!(manager.footer.next_node_id, 0);
    assert_eq!(manager.footer.page_count, 2);
    assert_eq!(manager.footer.first_node_page, SENTINEL_PAGE_ID);
    assert_eq!(manager.header.footer_page_id, 1);
    let mut header = manager.header;
    header.page_header.checksum = 0;
    assert_eq!(header, NexoraHeader::initial());
    let mut footer = manager.footer;
    footer.page_header.checksum = 0;
    assert_eq!(footer, NexoraFooter::initial());
}

#[test]
fn footer_survives_close_and_reopen() {
    let mut manager = StorageManager::from_page_store(PageStore::create()).unwrap();
    let p = manager.allocate_page().unwrap();
    assert_eq!(p, PageId(2));
    manager.footer.next_node_id = 7;
    manager.mark_footer_dirty();
    manager.close().unwrap();
    let bytes = file_bytes(&manager.into_store());

    let reopened = StorageManager::from_page_store(PageStore::from_bytes(&bytes)).unwrap();
    assert_eq!(reopened.footer.page_count, 3);
    assert_eq!(reopened.footer.next_node_id, 7);
}

#[test]
fn unchanged_footer_is_not_written() {
    let mut manager = StorageManager::from_page_store(PageStore::create()).unwrap();
    let before = file_bytes(&manager.store);
    manager.close().unwrap();
    assert_eq!(file_bytes(&manager.store), before);
}

#[test]
fn freed_page_is_allocated_again() {
    let mut manager = StorageManager::from_page_store(PageStore::create()).unwrap();
    let a = manager.allocate_page().unwrap();
    let b = manager.allocate_page().unwrap();
    assert_eq!((a, b), (PageId(2), PageId(3)));
    manager.free_page(a).unwrap();
    assert_eq!(manager.footer.free_pages_count, 1);
    assert_eq!(manager.allocate_page().unwrap(), a);
    assert_eq!(manager.footer.free_pages_count, 0);
    assert_eq!(manager.allocate_page().unwrap(), PageId(4));
}

#[test]
fn stamped_checksum_verifies_and_detects_changes() {
    let mut page = vec![0u8; PAGE_SIZE];
    page[100] = 42;
    PageStore::stamp_checksum(&mut page);
    assert!(PageStore::verify_checksum(&page, PageStore::get_checksum(&page)));
    page[101] = 1;
    assert!(!PageStore::verify_checksum(&page, PageStore::get_checksum(&page)));
}

#[test]
fn checksum_covers_the_page_with_its_field_zeroed() {
    let mut page = vec![0u8; PAGE_SIZE];
    page[2000] = 7;
    PageStore::stamp_checksum(&mut page);
    let mut zeroed = page.clone();
    zeroed[24..28].copy_from_slice(&[0, 0, 0, 0]);
    assert_eq!(PageStore::get_checksum(&page), crc32fast::hash(&zeroed));
}

#[test]
fn read_past_end_is_unexpected_eof() {
    let store = PageStore::create();
    let mut buf = Vec::new();
    assert_eq!(store.read_page(PageId(5), &mut buf, true), Err(NexoraStorageError::UnexpectedEof(5)));
}

#[test]
fn unstamped_page_fails_its_checksum() {
    let mut store = PageStore::create();
    let mut page = vec![0u8; PAGE_SIZE];
    page[40] = 9;
    store.write_page(PageId(2), &page, false).unwrap();
    let mut buf = Vec::new();
    assert_eq!(store.read_page(PageId(2), &mut buf, true), Err(NexoraStorageError::ChecksumMismatch(2)));
    assert_eq!(store.read_page(PageId(2), &mut buf, false), Ok(()));
    assert_eq!(buf, page);
}

#[test]
fn writing_past_the_end_fills_the_gap_with_zero_pages() {
    let mut store = PageStore::create();
    let page = vec![1u8; PAGE_SIZE];
    store.write_page(PageId(4), &page, false).unwrap();
    assert_eq!(store.page_count(), 5);
    assert_eq!(store.page_bytes(2), &vec![0u8; PAGE_SIZE][..]);
    assert_eq!(store.page_bytes(4), &page[..]);
}

#[test]
fn header_with_wrong_magic_is_refused() {
    let mut store = PageStore::create();
    store.write_page(PageId(0), &vec![0u8; PAGE_SIZE], true).unwrap();
    assert_eq!(StorageManager::from_page_store(store).err(), Some(NexoraStorageError::InvalidMagicBytes));
}

#[test]
fn header_with_wrong_version_is_refused() {
    let mut store = PageStore::create();
    let mut header = NexoraHeader::initial();
    header.version = 9;
    store.write_page(PageId(0), &header.to_page(), true).unwrap();
    assert_eq!(StorageManager::from_page_store(store).err(), Some(NexoraStorageError::UnsupportedVersion(9)));
}

#[test]
fn corrupt_header_page_is_refused() {
    let mut store = PageStore::create();
    let mut header = NexoraHeader::initial().to_page();
    header[60] = 1;
    store.write_page(PageId(0), &header, false).unwrap();
    assert_eq!(StorageManager::from_page_store(store).err(), Some(NexoraStorageError::ChecksumMismatch(0)));
}

#[test]
fn empty_store_has_no_header() {
    assert_eq!(StorageManager::from_page_store(PageStore::new()).err(), Some(NexoraStorageError::UnexpectedEof(0)));
}

#[test]
fn page_ids_and_types() {
    assert_eq!(PageId(3).as_u64(), 3);
    assert_eq!(PageId(1).byte_offset(), 4096);
    assert_eq!(PageId(10).byte_offset(), 40960);
    assert_eq!(PageType::try_from(2), Ok(PageType::Node));
    assert_eq!(PageType::try_from(10), Ok(PageType::LabelString));
    assert_eq!(PageType::try_from(11), Err(11));
    assert_eq!(PageType::Property.to_u8(), 9);
}
