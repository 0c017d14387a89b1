use nexora::storage::constants::PAGE_SIZE;
use nexora::storage::error::NexoraStorageError;
use nexora::storage::models::PageId;
use nexora::storage::page_store::PageStore;
use nexora::storage::wal::models::{
    checkpoint_into, open_wal, recover, WALFrame, WALFrameFlag, WALHeader, WalIndex, WAL_FRAME_SIZE,
    WAL_HEADER_SIZE, WAL_INDEX_CAPACITY, WAL_MAGIC,
};

fn page(fill: u8) -> Vec<u8> {
    vec![fill; PAGE_SIZE]
}

/// A log made of a header and the given frames.
fn log(frames: &[WALFrame]) -> Vec<u8> {
    let mut bytes = WALHeader::new(PAGE_SIZE as u32).as_bytes();
    for f in frames {
        bytes.extend_from_slice(&f.as_bytes());
    }
    bytes
}

#[test]
fn new_header_is_valid_and_reads_back() {
    let h = WALHeader::new(PAGE_SIZE as u32);
    assert_eq!(h.magic, WAL_MAGIC);
    assert_eq!(h.validate(), Ok(()));
    let bytes = h.as_bytes();
    assert_eq!(bytes.len(), WAL_HEADER_SIZE);
    assert_eq!(&bytes[..4], b"NXWL");
    assert_eq!(WALHeader::from_bytes(&bytes), h);
    assert_eq!(h.checksum, crc32fast::hash(&bytes[..12]));
}

#[test]
fn header_checks_come_in_order() {
    let good = WALHeader::new(PAGE_SIZE as u32);
    assert_eq!(WALHeader { magic: 0, ..good }.validate(), Err(NexoraStorageError::InvalidMagicBytes));
    assert_eq!(WALHeader { version: 2, ..good }.validate(), Err(NexoraStorageError::UnsupportedVersion(2)));
    assert_eq!(WALHeader::new(512).validate(), Err(NexoraStorageError::CorruptWal));
    assert_eq!(WALHeader { checksum: good.checksum ^ 1, ..good }.validate(), Err(NexoraStorageError::CorruptWal));
}

#[test]
fn frames_read_back() {
    let f = WALFrame::data(7, &page(3));
    let bytes = f.as_bytes();
    assert_eq!(bytes.len(), WAL_FRAME_SIZE);
    let g = WALFrame::from_bytes(&bytes, 0);
    assert_eq!((g.page_id, g.flags), (7, 0));
    assert_eq!(g.page, page(3));
    let c = WALFrame::from_bytes(&WALFrame::commit().as_bytes(), 0);
    assert_eq!((c.page_id, c.flags), (u64::MAX, 1));
    assert_eq!(WALFrameFlag::try_from(1), Ok(WALFrameFlag::Commit));
    assert_eq!(WALFrameFlag::try_from(0), Ok(WALFrameFlag::Data));
    assert_eq!(WALFrameFlag::try_from(5), Err(5));
    assert_eq!(WALFrameFlag::Commit.to_u8(), 1);
}

#[test]
fn recovery_keeps_the_last_committed_frame_of_each_page() {
    let h = WAL_HEADER_SIZE as u64;
    let fs = WAL_FRAME_SIZE as u64;
    let bytes = log(&[
        WALFrame::data(5, &page(1)),
        WALFrame::data(6, &page(2)),
        WALFrame::data(5, &page(3)),
        WALFrame::commit(),
        WALFrame::data(6, &page(4)),
        WALFrame::commit(),
        WALFrame::data(9, &page(5)),
    ]);
    assert_eq!(recover(&bytes), Ok((vec![(5, h + 2 * fs), (6, h + 4 * fs)], h + 6 * fs)));
}

#[test]
fn uncommitted_frames_are_dropped() {
    let bytes = log(&[WALFrame::data(5, &page(1)), WALFrame::data(6, &page(2))]);
    assert_eq!(recover(&bytes), Ok((vec![], WAL_HEADER_SIZE as u64)));
    let mut partial = log(&[WALFrame::data(5, &page(1)), WALFrame::commit()]);
    partial.extend_from_slice(&[0u8; 100]);
    assert_eq!(recover(&partial), Ok((vec![(5, WAL_HEADER_SIZE as u64)], (WAL_HEADER_SIZE + 2 * WAL_FRAME_SIZE) as u64)));
}

#[test]
fn a_session_cut_short_leaves_nothing_behind() {
    // an uncommitted write to page 7, then (after reopening) a commit of page 3
    let first = log(&[WALFrame::data(3, &page(1)), WALFrame::commit(), WALFrame::data(7, &page(2))]);
    let (ix, _, end) = open_wal(&first).unwrap();
    assert_eq!(ix.lookup(7), None);
    let mut second = first[..end as usize].to_vec();
    second.extend_from_slice(&WALFrame::data(3, &page(4)).as_bytes());
    second.extend_from_slice(&WALFrame::commit().as_bytes());
    let (ix, _, _) = open_wal(&second).unwrap();
    assert_eq!(ix.lookup(7), None);
    assert_eq!(ix.lookup(3), Some((WAL_HEADER_SIZE + 2 * WAL_FRAME_SIZE) as u64));
}

#[test]
fn unknown_frame_flag_is_corruption() {
    let mut bytes = log(&[WALFrame::data(5, &page(1))]);
    bytes[WAL_HEADER_SIZE + 8] = 9;
    assert_eq!(recover(&bytes), Err(NexoraStorageError::CorruptWal));
}

#[test]
fn index_upserts_and_looks_up() {
    let mut ix = WalIndex::new();
    assert_eq!(ix.lookup(3), None);
    ix.upsert(3, 100).unwrap();
    ix.upsert(4, 200).unwrap();
    ix.upsert(3, 300).unwrap();
    assert_eq!(ix.lookup(3), Some(300));
    assert_eq!(ix.lookup(4), Some(200));
    assert_eq!(ix.len(), 2);
    ix.clear();
    assert_eq!(ix.len(), 0);
}

#[test]
fn full_index_refuses_new_pages_only() {
    let mut ix = WalIndex::new();
    for i in 0..WAL_INDEX_CAPACITY as u64 {
        ix.upsert(i, i).unwrap();
    }
    assert_eq!(ix.upsert(WAL_INDEX_CAPACITY as u64, 1), Err(NexoraStorageError::WalIndexFull));
    assert_eq!(ix.upsert(0, 77), Ok(()));
    assert_eq!(ix.lookup(0), Some(77));
    let too_many: Vec<(u64, u64)> = (0..WAL_INDEX_CAPACITY as u64 + 1).map(|i| (i, i)).collect();
    assert_eq!(WalIndex::from_pairs(too_many).err(), Some(NexoraStorageError::WalIndexFull));
}

#[test]
fn opening_a_log() {
    let (ix, reset, end) = open_wal(&[1, 2, 3]).unwrap();
    assert!(reset);
    assert_eq!(ix.len(), 0);
    assert_eq!(end, WAL_HEADER_SIZE as u64);
    let bytes = log(&[WALFrame::data(2, &page(8)), WALFrame::commit()]);
    let (ix, reset, end) = open_wal(&bytes).unwrap();
    assert!(!reset);
    assert_eq!(end, (WAL_HEADER_SIZE + 2 * WAL_FRAME_SIZE) as u64);
    assert_eq!(ix.lookup(2), Some(WAL_HEADER_SIZE as u64));
    let mut bad = bytes.clone();
    bad[0] = b'X';
    assert_eq!(open_wal(&bad).err(), Some(NexoraStorageError::InvalidMagicBytes));
}

#[test]
fn checkpoint_copies_committed_pages() {
    let mut image = page(0);
    image[50] = 5;
    PageStore::stamp_checksum(&mut image);
    let bytes = log(&[WALFrame::data(2, &image), WALFrame::commit()]);
    let (ix, _, _) = open_wal(&bytes).unwrap();
    let mut store = PageStore::create();
    checkpoint_into(&mut store, &bytes, &ix).unwrap();
    assert_eq!(store.page_count(), 3);
    let mut buf = Vec::new();
    store.read_page(PageId(2), &mut buf, true).unwrap();
    assert_eq!(buf, image);
    let mut far = WalIndex::new();
    far.upsert(1, bytes.len() as u64).unwrap();
    assert_eq!(checkpoint_into(&mut store, &bytes, &far), Err(NexoraStorageError::CorruptWal));
}
