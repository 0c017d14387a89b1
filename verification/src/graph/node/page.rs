//! Node pages: fixed-size node records, filled in id order.
//!
//! Layout: `[page header 32 | record_count u8, 3 pad | 101 records of 40 bytes]`.
//! A record is `node_id u64 | first_out_edge | first_in_edge | properties |
//! label_id u32 | flags u8 | 3 pad`.
use vstd::prelude::*;

use crate::utils::codec::{
    group_codec, read_u8, read_u32, read_u64, put_u8, put_u32, put_u64, get_u8, get_u32, get_u64,
    set_u8, set_u32, set_u64,
};
use crate::storage::constants::{PAGE_HEADER_SIZE, PAGE_SIZE, SENTINEL_PAGE_ID};
use crate::storage::models::{NexoraPageHeader, PageType, page_type_code, view_page_header, put_page_header, zero_page};
use crate::graph::node::constants::{MAX_RECORD_COUNT, NODE_RECORDS_OFFSET, NODE_RECORD_SIZE};
use crate::graph::node::error::NexoraGraphNodeError;
use crate::graph::record::types::{GraphRecordFlag, PackedPtr, Record, FLAG_ACTIVE, FLAG_DELETED, NULL_PTR_VALUE};

verus! {

broadcast use group_codec;

#[derive(Debug, Copy, Clone, PartialEq, Eq, Structural)]
pub struct GraphNodePageHeader {
    pub record_count: u8,
}

#[derive(Debug, Copy, Clone, PartialEq, Eq, Structural)]
pub struct GraphNodeRecord {
    pub node_id: u64,
    pub first_out_edge: PackedPtr,
    pub first_in_edge: PackedPtr,
    pub properties: PackedPtr,
    pub label_id: u32,
    pub flags: u8,
}

pub open spec fn node_record_offset(slot: int) -> int {
    NODE_RECORDS_OFFSET + NODE_RECORD_SIZE * slot
}

pub open spec fn view_node_record(s: Seq<u8>, o: int) -> GraphNodeRecord {
    GraphNodeRecord {
        node_id: read_u64(s, o),
        first_out_edge: PackedPtr(read_u64(s, o + 8)),
        first_in_edge: PackedPtr(read_u64(s, o + 16)),
        properties: PackedPtr(read_u64(s, o + 24)),
        label_id: read_u32(s, o + 32),
        flags: read_u8(s, o + 36),
    }
}

pub open spec fn put_node_record(s: Seq<u8>, o: int, r: GraphNodeRecord) -> Seq<u8> {
    put_u8(
        put_u32(
            put_u64(put_u64(put_u64(put_u64(s, o, r.node_id), o + 8, r.first_out_edge.0), o + 16, r.first_in_edge.0), o + 24, r.properties.0),
            o + 32,
            r.label_id,
        ),
        o + 36,
        r.flags,
    )
}

/// Writing a record changes only its 40 bytes, and reading it back gives it.
pub proof fn lemma_put_node_record(s: Seq<u8>, o: int, r: GraphNodeRecord)
    requires
        0 <= o,
        o + NODE_RECORD_SIZE <= s.len(),
    ensures
        put_node_record(s, o, r).len() == s.len(),
        view_node_record(put_node_record(s, o, r), o) == r,
        forall|i: int| 0 <= i < s.len() && !(o <= i < o + NODE_RECORD_SIZE)
            ==> #[trigger] put_node_record(s, o, r)[i] == s[i],
{
}

pub open spec fn node_record_is_active(r: GraphNodeRecord) -> bool {
    r.flags == FLAG_ACTIVE
}

impl GraphNodeRecord {
    pub fn new(node_id: u64, label_id: u32, properties: PackedPtr) -> (r: Self)
        ensures
            r == (GraphNodeRecord {
                node_id,
                first_out_edge: PackedPtr(NULL_PTR_VALUE),
                first_in_edge: PackedPtr(NULL_PTR_VALUE),
                properties,
                label_id,
                flags: FLAG_ACTIVE,
            }),
    {
        GraphNodeRecord {
            node_id,
            first_out_edge: PackedPtr::null(),
            first_in_edge: PackedPtr::null(),
            properties,
            label_id,
            flags: GraphRecordFlag::ACTIVE.to_u8(),
        }
    }

    pub fn read_from(buf: &[u8], o: usize) -> (r: Self)
        requires
            o + NODE_RECORD_SIZE <= buf@.len(),
        ensures
            r == view_node_record(buf@, o as int),
    {
        let n = buf.len();
        assert(o + NODE_RECORD_SIZE <= n);
        GraphNodeRecord {
            node_id: get_u64(buf, o),
            first_out_edge: PackedPtr(get_u64(buf, o + 8)),
            first_in_edge: PackedPtr(get_u64(buf, o + 16)),
            properties: PackedPtr(get_u64(buf, o + 24)),
            label_id: get_u32(buf, o + 32),
            flags: get_u8(buf, o + 36),
        }
    }

    pub fn write_to(&self, buf: &mut Vec<u8>, o: usize)
        requires
            o + NODE_RECORD_SIZE <= old(buf)@.len(),
        ensures
            final(buf)@ == put_node_record(old(buf)@, o as int, *self),
    {
        let n = buf.len();
        assert(o + NODE_RECORD_SIZE <= n);
        set_u64(buf, o, self.node_id);
        set_u64(buf, o + 8, self.first_out_edge.0);
        set_u64(buf, o + 16, self.first_in_edge.0);
        set_u64(buf, o + 24, self.properties.0);
        set_u32(buf, o + 32, self.label_id);
        set_u8(buf, o + 36, self.flags);
    }
}

impl Record for GraphNodeRecord {
    fn id(&self) -> (r: u64)
        ensures
            r == self.node_id,
    {
        self.node_id
    }

    fn is_active(&self) -> (r: bool)
        ensures
            r == node_record_is_active(*self),
    {
        match GraphRecordFlag::try_from(self.flags) {
            Ok(GraphRecordFlag::ACTIVE) => true,
            _ => false,
        }
    }

    fn mark_deleted(&mut self)
        ensures
            *final(self) == (GraphNodeRecord { flags: FLAG_DELETED, ..*old(self) }),
    {
        self.flags = GraphRecordFlag::DELETED.to_u8();
    }
}

pub open spec fn node_record_count(s: Seq<u8>) -> u8 {
    read_u8(s, PAGE_HEADER_SIZE as int)
}

pub open spec fn node_record(s: Seq<u8>, slot: int) -> GraphNodeRecord {
    view_node_record(s, node_record_offset(slot))
}

/// The slot node `node_id` has in its page.
pub open spec fn node_slot(node_id: u64) -> int {
    (node_id % MAX_RECORD_COUNT as u64) as int
}

/// What looking up node `node_id` in a node page gives.
pub open spec fn spec_page_get_node(s: Seq<u8>, node_id: u64) -> Option<GraphNodeRecord> {
    let slot = node_slot(node_id);
    if slot >= node_record_count(s) || !node_record_is_active(node_record(s, slot)) {
        None
    } else {
        Some(node_record(s, slot))
    }
}

/// The bytes of page `s` after `init(page_id, next)`.
pub open spec fn spec_node_page_init(s: Seq<u8>, page_id: u64, next_page_id: u64) -> Seq<u8> {
    put_u8(
        put_page_header(
            s,
            NexoraPageHeader {
                page_id,
                next_page_id,
                prev_page_id: SENTINEL_PAGE_ID,
                checksum: 0,
                page_type: page_type_code(PageType::Node),
                ..view_page_header(s)
            },
        ),
        PAGE_HEADER_SIZE as int,
        0,
    )
}

/// A node page, kept as its bytes.
pub struct GraphNodePage {
    bytes: Vec<u8>,
}

impl View for GraphNodePage {
    type V = Seq<u8>;

    closed spec fn view(&self) -> Seq<u8> {
        self.bytes@
    }
}

impl GraphNodePage {
    pub open spec fn inv(&self) -> bool {
        self@.len() == PAGE_SIZE
    }

    pub fn from_bytes(bytes: Vec<u8>) -> (r: Self)
        requires
            bytes@.len() == PAGE_SIZE,
        ensures
            r@ == bytes@,
            r.inv(),
    {
        GraphNodePage { bytes }
    }

    /// A page of zero bytes.
    pub fn zeroed() -> (r: Self)
        ensures
            r@ == Seq::new(PAGE_SIZE as nat, |i: int| 0u8),
            r.inv(),
    {
        let bytes = zero_page();
        assert(bytes@ =~= Seq::new(PAGE_SIZE as nat, |i: int| 0u8));
        GraphNodePage { bytes }
    }

    pub fn as_bytes(&self) -> (r: &[u8])
        ensures
            r@ == self@,
    {
        self.bytes.as_slice()
    }

    pub fn page_header(&self) -> (r: NexoraPageHeader)
        requires
            self.inv(),
        ensures
            r == view_page_header(self@),
    {
        NexoraPageHeader::read_from(self.bytes.as_slice())
    }

    pub fn graph_page_header(&self) -> (r: GraphNodePageHeader)
        requires
            self.inv(),
        ensures
            r.record_count == node_record_count(self@),
    {
        GraphNodePageHeader { record_count: get_u8(self.bytes.as_slice(), PAGE_HEADER_SIZE) }
    }

    pub fn set_next_page_id(&mut self, next_page_id: u64)
        requires
            old(self).inv(),
        ensures
            final(self)@ == put_u64(old(self)@, 8, next_page_id),
            final(self).inv(),
    {
        set_u64(&mut self.bytes, 8, next_page_id);
    }

    pub fn record(&self, slot: usize) -> (r: GraphNodeRecord)
        requires
            self.inv(),
            slot < MAX_RECORD_COUNT,
        ensures
            r == node_record(self@, slot as int),
    {
        GraphNodeRecord::read_from(self.bytes.as_slice(), NODE_RECORDS_OFFSET + NODE_RECORD_SIZE * slot)
    }

    pub fn set_record(&mut self, slot: usize, record: GraphNodeRecord)
        requires
            old(self).inv(),
            slot < MAX_RECORD_COUNT,
        ensures
            final(self)@ == put_node_record(old(self)@, node_record_offset(slot as int), record),
            final(self).inv(),
    {
        record.write_to(&mut self.bytes, NODE_RECORDS_OFFSET + NODE_RECORD_SIZE * slot);
    }

    /// Writes the `u64` field at offset `field` of record `slot`.
    pub fn set_record_u64(&mut self, slot: usize, field: usize, v: u64)
        requires
            old(self).inv(),
            slot < MAX_RECORD_COUNT,
            field + 8 <= NODE_RECORD_SIZE,
        ensures
            final(self)@ == put_u64(old(self)@, node_record_offset(slot as int) + field, v),
            final(self).inv(),
    {
        set_u64(&mut self.bytes, NODE_RECORDS_OFFSET + NODE_RECORD_SIZE * slot + field, v);
    }

    /// Writes the label id of record `slot`.
    pub fn set_record_label_id(&mut self, slot: usize, v: u32)
        requires
            old(self).inv(),
            slot < MAX_RECORD_COUNT,
        ensures
            final(self)@ == put_u32(old(self)@, node_record_offset(slot as int) + 32, v),
            final(self).inv(),
    {
        set_u32(&mut self.bytes, NODE_RECORDS_OFFSET + NODE_RECORD_SIZE * slot + 32, v);
    }

    pub fn init(&mut self, page_id: u64, next_page_id: u64)
        requires
            old(self).inv(),
        ensures
            final(self)@ == spec_node_page_init(old(self)@, page_id, next_page_id),
            final(self).inv(),
    {
        let mut h = NexoraPageHeader::read_from(self.bytes.as_slice());
        h.page_id = page_id;
        h.page_type = PageType::Node.to_u8();
        h.next_page_id = next_page_id;
        h.prev_page_id = SENTINEL_PAGE_ID;
        h.checksum = 0;
        h.write_to(&mut self.bytes);
        set_u8(&mut self.bytes, PAGE_HEADER_SIZE, 0);
    }

    /// Appends `node` in the next free slot.
    pub fn insert_node(&mut self, node: GraphNodeRecord) -> (r: Result<(), NexoraGraphNodeError>)
        requires
            old(self).inv(),
        ensures
            final(self).inv(),
            ({
                let count = node_record_count(old(self)@);
                if count >= MAX_RECORD_COUNT {
                    r == Err::<(), NexoraGraphNodeError>(NexoraGraphNodeError::NoFreeSlot) && final(self)@ == old(self)@
                } else {
                    &&& r == Ok::<(), NexoraGraphNodeError>(())
                    &&& final(self)@ == put_u8(
                        put_node_record(old(self)@, node_record_offset(count as int), node),
                        PAGE_HEADER_SIZE as int,
                        (count + 1) as u8,
                    )
                }
            }),
    {
        let slot = get_u8(self.bytes.as_slice(), PAGE_HEADER_SIZE) as usize;
        if slot >= MAX_RECORD_COUNT {
            return Err(NexoraGraphNodeError::NoFreeSlot);
        }
        self.set_record(slot, node);
        set_u8(&mut self.bytes, PAGE_HEADER_SIZE, (slot + 1) as u8);
        Ok(())
    }

    pub fn get_node(&self, node_id: u64) -> (r: Option<GraphNodeRecord>)
        requires
            self.inv(),
        ensures
            r == spec_page_get_node(self@, node_id),
    {
        let slot = (node_id % MAX_RECORD_COUNT as u64) as usize;
        if slot >= get_u8(self.bytes.as_slice(), PAGE_HEADER_SIZE) as usize {
            return None;
        }
        let record = self.record(slot);
        if !record.is_active() {
            return None;
        }
        Some(record)
    }

    /// Tombstones node `node_id`.
    pub fn delete_node(&mut self, node_id: u64) -> (r: Result<(), NexoraGraphNodeError>)
        requires
            old(self).inv(),
        ensures
            final(self).inv(),
            ({
                let slot = node_slot(node_id);
                if spec_page_get_node(old(self)@, node_id) is None {
                    r == Err::<(), NexoraGraphNodeError>(NexoraGraphNodeError::NodeNotFound) && final(self)@ == old(self)@
                } else {
                    &&& r == Ok::<(), NexoraGraphNodeError>(())
                    &&& final(self)@ == put_u8(old(self)@, node_record_offset(slot) + 36, FLAG_DELETED)
                }
            }),
    {
        let slot = (node_id % MAX_RECORD_COUNT as u64) as usize;
        if slot >= get_u8(self.bytes.as_slice(), PAGE_HEADER_SIZE) as usize || !self.record(slot).is_active() {
            return Err(NexoraGraphNodeError::NodeNotFound);
        }
        set_u8(&mut self.bytes, NODE_RECORDS_OFFSET + NODE_RECORD_SIZE * slot + 36, GraphRecordFlag::DELETED.to_u8());
        Ok(())
    }
}

} // verus!
