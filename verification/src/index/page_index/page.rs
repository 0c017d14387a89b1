//! Directory pages of the node page index: record `i` holds the page id of
//! the `i`-th node page covered by the directory page.
//!
//! Layout: `[page header 32 | page_dir_count u16, 6 pad | 507 page ids u64]`.
use vstd::prelude::*;

use crate::utils::codec::{group_codec, read_u16, read_u64, put_u64, get_u16, get_u64, set_u64};
use crate::storage::constants::{PAGE_HEADER_SIZE, PAGE_SIZE};
use crate::storage::models::{NexoraPageHeader, view_page_header, put_page_header, zero_page};
use crate::index::page_index::constants::{INDEX_RECORDS_OFFSET, MAX_NODE_PAGE_INDEX_RECORD_COUNT, NODE_PAGE_INDEX_RECORD_SIZE};

verus! {

broadcast use group_codec;

#[derive(Debug, Copy, Clone, PartialEq, Eq, Structural)]
pub struct NodePageIndexHeader {
    pub page_dir_count: u16,
}

#[derive(Debug, Copy, Clone, PartialEq, Eq, Structural)]
pub struct NodePageIndexRecord {
    pub page_id: u64,
}

pub open spec fn index_record_offset(slot: int) -> int {
    INDEX_RECORDS_OFFSET + NODE_PAGE_INDEX_RECORD_SIZE * slot
}

/// The page id in record `slot` of directory page `s`.
pub open spec fn index_record(s: Seq<u8>, slot: int) -> u64 {
    read_u64(s, index_record_offset(slot))
}

/// A directory page, kept as its bytes.
pub struct NodePageIndexPage {
    bytes: Vec<u8>,
}

impl View for NodePageIndexPage {
    type V = Seq<u8>;

    closed spec fn view(&self) -> Seq<u8> {
        self.bytes@
    }
}

impl NodePageIndexPage {
    pub open spec fn inv(&self) -> bool {
        self@.len() == PAGE_SIZE
    }

    pub fn from_bytes(bytes: Vec<u8>) -> (r: Self)
        requires
            bytes@.len() == PAGE_SIZE,
        ensures
            r@ == bytes@,
            r.inv(),
    {
        NodePageIndexPage { bytes }
    }

    pub fn zeroed() -> (r: Self)
        ensures
            r@ == Seq::new(PAGE_SIZE as nat, |i: int| 0u8),
            r.inv(),
    {
        let bytes = zero_page();
        assert(bytes@ =~= Seq::new(PAGE_SIZE as nat, |i: int| 0u8));
        NodePageIndexPage { bytes }
    }

    pub fn as_bytes(&self) -> (r: &[u8])
        ensures
            r@ == self@,
    {
        self.bytes.as_slice()
    }

    pub fn page_header(&self) -> (r: NexoraPageHeader)
        requires
            self.inv(),
        ensures
            r == view_page_header(self@),
    {
        NexoraPageHeader::read_from(self.bytes.as_slice())
    }

    pub fn set_page_header(&mut self, h: NexoraPageHeader)
        requires
            old(self).inv(),
        ensures
            final(self)@ == put_page_header(old(self)@, h),
            final(self).inv(),
    {
        h.write_to(&mut self.bytes);
    }

    pub fn set_next_page_id(&mut self, next_page_id: u64)
        requires
            old(self).inv(),
        ensures
            final(self)@ == put_u64(old(self)@, 8, next_page_id),
            final(self).inv(),
    {
        set_u64(&mut self.bytes, 8, next_page_id);
    }

    pub fn node_page_index_header(&self) -> (r: NodePageIndexHeader)
        requires
            self.inv(),
        ensures
            r.page_dir_count == read_u16(self@, PAGE_HEADER_SIZE as int),
    {
        NodePageIndexHeader { page_dir_count: get_u16(self.bytes.as_slice(), PAGE_HEADER_SIZE) }
    }

    pub fn record(&self, slot: usize) -> (r: NodePageIndexRecord)
        requires
            self.inv(),
            slot < MAX_NODE_PAGE_INDEX_RECORD_COUNT,
        ensures
            r.page_id == index_record(self@, slot as int),
    {
        NodePageIndexRecord { page_id: get_u64(self.bytes.as_slice(), INDEX_RECORDS_OFFSET + NODE_PAGE_INDEX_RECORD_SIZE * slot) }
    }

    pub fn set_record(&mut self, slot: usize, page_id: u64)
        requires
            old(self).inv(),
            slot < MAX_NODE_PAGE_INDEX_RECORD_COUNT,
        ensures
            final(self)@ == put_u64(old(self)@, index_record_offset(slot as int), page_id),
            final(self).inv(),
    {
        set_u64(&mut self.bytes, INDEX_RECORDS_OFFSET + NODE_PAGE_INDEX_RECORD_SIZE * slot, page_id);
    }
}

} // verus!
