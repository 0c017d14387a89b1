//! Label pages: each record maps a label id to the string that names it.
//!
//! Layout: `[page header 32 | first_label_id u32, label_count u16, 2 pad |
//! 253 records of label_id u64, string_address u64]`. A page holds the
//! consecutive ids from `first_label_id`.
use vstd::prelude::*;

use crate::utils::codec::{group_codec, read_u16, read_u32, read_u64, put_u16, put_u32, put_u64, get_u16, get_u32, get_u64, set_u16, set_u32, set_u64};
use crate::storage::constants::{PAGE_HEADER_SIZE, PAGE_SIZE, SENTINEL_PAGE_ID};
use crate::storage::models::{NexoraPageHeader, PageType, page_type_code, view_page_header, put_page_header, zero_page};
use crate::storage::page_store::zero_bytes;
use crate::graph::label::constants::{LABEL_RECORDS_OFFSET, LABEL_RECORD_SIZE, MAX_PAGE_LABEL_COUNT};
use crate::graph::label::error::NexoraGraphLabelError;
use crate::graph::record::types::{PackedPtr, NULL_PTR_VALUE};

verus! {

broadcast use group_codec;

#[derive(Debug, Copy, Clone, PartialEq, Eq, Structural)]
pub struct LabelPageHeader {
    pub first_label_id: u32,
    pub label_count: u16,
}

pub open spec fn spec_label_exists(h: LabelPageHeader, label_id: u32) -> bool {
    label_id >= h.first_label_id && label_id < h.first_label_id + h.label_count
}

impl LabelPageHeader {
    pub fn init(first_label_id: u32) -> (r: Self)
        ensures
            r == (LabelPageHeader { first_label_id, label_count: 0 }),
    {
        Self { first_label_id, label_count: 0 }
    }

    pub fn is_full(&self) -> (r: bool)
        ensures
            r == (self.label_count >= MAX_PAGE_LABEL_COUNT),
    {
        self.label_count >= MAX_PAGE_LABEL_COUNT
    }

    /// Whether `label_id` is one of the ids this page holds.
    pub fn exists_label(&self, label_id: u32) -> (r: bool)
        ensures
            r == spec_label_exists(*self, label_id),
    {
        let first = self.first_label_id;
        label_id >= first && (label_id as u64) < first as u64 + self.label_count as u64
    }
}

#[derive(Debug, Copy, Clone, PartialEq, Eq, Structural)]
pub struct LabelRecord {
    pub label_id: u64,
    pub string_address: PackedPtr,
}

pub open spec fn label_record_offset(slot: int) -> int {
    LABEL_RECORDS_OFFSET + LABEL_RECORD_SIZE * slot
}

pub open spec fn view_label_header(s: Seq<u8>) -> LabelPageHeader {
    LabelPageHeader { first_label_id: read_u32(s, 32), label_count: read_u16(s, 36) }
}

pub open spec fn label_record(s: Seq<u8>, slot: int) -> LabelRecord {
    LabelRecord {
        label_id: read_u64(s, label_record_offset(slot)),
        string_address: PackedPtr(read_u64(s, label_record_offset(slot) + 8)),
    }
}

/// What looking up `label_id` in label page `s` gives.
pub open spec fn spec_get_entry(s: Seq<u8>, label_id: u32) -> Result<PackedPtr, NexoraGraphLabelError> {
    let h = view_label_header(s);
    if !spec_label_exists(h, label_id) || label_id - h.first_label_id >= MAX_PAGE_LABEL_COUNT {
        Err(NexoraGraphLabelError::LabelNotFound)
    } else {
        Ok(label_record(s, label_id - h.first_label_id).string_address)
    }
}

/// What adding an entry to label page `s` gives.
pub open spec fn spec_insert_entry(s: Seq<u8>, label_id: u32, ptr: PackedPtr) -> Result<Seq<u8>, NexoraGraphLabelError> {
    let count = view_label_header(s).label_count;
    if count >= MAX_PAGE_LABEL_COUNT {
        Err(NexoraGraphLabelError::PageFull)
    } else {
        Ok(put_u16(
            put_u64(put_u64(s, label_record_offset(count as int), label_id as u64), label_record_offset(count as int) + 8, ptr.0),
            36,
            (count + 1) as u16,
        ))
    }
}

/// The bytes of a fresh label page: header of type `Label`, first id
/// `first_label_id`, no entries, every string address null.
pub open spec fn spec_label_page_init(page_id: u64, first_label_id: u32) -> Seq<u8> {
    let h = put_u16(put_u32(put_page_header(zero_bytes(), NexoraPageHeader {
        page_id,
        next_page_id: SENTINEL_PAGE_ID,
        prev_page_id: SENTINEL_PAGE_ID,
        checksum: 0,
        page_type: page_type_code(PageType::Label),
    }), 32, first_label_id), 36, 0);
    Seq::new(PAGE_SIZE as nat, |i: int|
        if LABEL_RECORDS_OFFSET <= i < label_record_offset(MAX_PAGE_LABEL_COUNT as int) && (i - LABEL_RECORDS_OFFSET) % 16 >= 8 {
            0xffu8
        } else {
            h[i]
        })
}

/// A label page, kept as its bytes.
pub struct GraphLabelPage {
    bytes: Vec<u8>,
}

impl View for GraphLabelPage {
    type V = Seq<u8>;

    closed spec fn view(&self) -> Seq<u8> {
        self.bytes@
    }
}

impl GraphLabelPage {
    pub open spec fn inv(&self) -> bool {
        self@.len() == PAGE_SIZE
    }

    pub fn from_bytes(bytes: Vec<u8>) -> (r: Self)
        requires
            bytes@.len() == PAGE_SIZE,
        ensures
            r@ == bytes@,
            r.inv(),
    {
        GraphLabelPage { bytes }
    }

    pub fn as_bytes(&self) -> (r: &[u8])
        ensures
            r@ == self@,
    {
        self.bytes.as_slice()
    }

    pub fn page_header(&self) -> (r: NexoraPageHeader)
        requires
            self.inv(),
        ensures
            r == view_page_header(self@),
    {
        NexoraPageHeader::read_from(self.bytes.as_slice())
    }

    pub fn set_next_page_id(&mut self, next_page_id: u64)
        requires
            old(self).inv(),
        ensures
            final(self)@ == put_u64(old(self)@, 8, next_page_id),
            final(self).inv(),
    {
        set_u64(&mut self.bytes, 8, next_page_id);
    }

    pub fn label_page_header(&self) -> (r: LabelPageHeader)
        requires
            self.inv(),
        ensures
            r == view_label_header(self@),
    {
        LabelPageHeader { first_label_id: get_u32(self.bytes.as_slice(), 32), label_count: get_u16(self.bytes.as_slice(), 36) }
    }

    pub fn init(page_id: u64, first_label_id: u32) -> (r: Self)
        ensures
            r@ == spec_label_page_init(page_id, first_label_id),
            r.inv(),
    {
        let mut bytes = zero_page();
        assert(bytes@ =~= zero_bytes());
        let h = NexoraPageHeader {
            page_id,
            next_page_id: SENTINEL_PAGE_ID,
            prev_page_id: SENTINEL_PAGE_ID,
            checksum: 0,
            page_type: PageType::Label.to_u8(),
        };
        h.write_to(&mut bytes);
        let lh = LabelPageHeader::init(first_label_id);
        set_u32(&mut bytes, 32, lh.first_label_id);
        set_u16(&mut bytes, 36, lh.label_count);
        let ghost hb = bytes@;
        let mut slot: usize = 0;
        while slot < MAX_PAGE_LABEL_COUNT as usize
            invariant
                slot <= MAX_PAGE_LABEL_COUNT,
                bytes@.len() == PAGE_SIZE,
                hb.len() == PAGE_SIZE,
                forall|i: int| 0 <= i < PAGE_SIZE ==> #[trigger] bytes@[i] == if LABEL_RECORDS_OFFSET <= i < label_record_offset(slot as int)
                    && (i - LABEL_RECORDS_OFFSET) % 16 >= 8 {
                    0xffu8
                } else {
                    hb[i]
                },
                forall|i: int| LABEL_RECORDS_OFFSET <= i < PAGE_SIZE ==> #[trigger] hb[i] == 0u8,
            decreases MAX_PAGE_LABEL_COUNT - slot,
        {
            let o = LABEL_RECORDS_OFFSET + LABEL_RECORD_SIZE * slot;
            let mut k: usize = 0;
            while k < 8
                invariant
                    k <= 8,
                    slot < MAX_PAGE_LABEL_COUNT,
                    o == LABEL_RECORDS_OFFSET + LABEL_RECORD_SIZE * slot,
                    bytes@.len() == PAGE_SIZE,
                    forall|i: int| 0 <= i < PAGE_SIZE ==> #[trigger] bytes@[i] == if (LABEL_RECORDS_OFFSET <= i < label_record_offset(slot as int)
                        && (i - LABEL_RECORDS_OFFSET) % 16 >= 8) || (o + 8 <= i < o + 8 + k) {
                        0xffu8
                    } else {
                        hb[i]
                    },
                decreases 8 - k,
            {
                bytes[o + 8 + k] = 0xffu8;
                k = k + 1;
            }
            slot = slot + 1;
        }
        let r = GraphLabelPage { bytes };
        assert(r@ =~= spec_label_page_init(page_id, first_label_id));
        r
    }

    /// Adds the entry of `label_id` after the last one.
    pub fn insert_entry(&mut self, label_id: u32, ptr: PackedPtr) -> (r: Result<(), NexoraGraphLabelError>)
        requires
            old(self).inv(),
        ensures
            final(self).inv(),
            match spec_insert_entry(old(self)@, label_id, ptr) {
                Err(e) => r == Err::<(), NexoraGraphLabelError>(e) && final(self)@ == old(self)@,
                Ok(s) => r == Ok::<(), NexoraGraphLabelError>(()) && final(self)@ == s,
            },
    {
        let h = self.label_page_header();
        if h.is_full() {
            return Err(NexoraGraphLabelError::PageFull);
        }
        let slot = h.label_count as usize;
        let o = LABEL_RECORDS_OFFSET + LABEL_RECORD_SIZE * slot;
        set_u64(&mut self.bytes, o, label_id as u64);
        set_u64(&mut self.bytes, o + 8, ptr.0);
        set_u16(&mut self.bytes, 36, (slot + 1) as u16);
        Ok(())
    }

    /// The string address of `label_id`.
    pub fn get_entry(&self, label_id: u32) -> (r: Result<PackedPtr, NexoraGraphLabelError>)
        requires
            self.inv(),
        ensures
            r == spec_get_entry(self@, label_id),
    {
        let h = self.label_page_header();
        if !h.exists_label(label_id) || label_id - h.first_label_id >= MAX_PAGE_LABEL_COUNT as u32 {
            return Err(NexoraGraphLabelError::LabelNotFound);
        }
        let slot = (label_id - h.first_label_id) as usize;
        Ok(PackedPtr(get_u64(self.bytes.as_slice(), LABEL_RECORDS_OFFSET + LABEL_RECORD_SIZE * slot + 8)))
    }
}

/// An entry just added to a label page reads back.
pub proof fn lemma_label_insert_then_get(s: Seq<u8>, label_id: u32, ptr: PackedPtr)
    requires
        s.len() == PAGE_SIZE,
        spec_insert_entry(s, label_id, ptr) is Ok,
        label_id == view_label_header(s).first_label_id + view_label_header(s).label_count,
    ensures
        spec_get_entry(spec_insert_entry(s, label_id, ptr)->Ok_0, label_id) == Ok::<PackedPtr, NexoraGraphLabelError>(ptr),
{
}

} // verus!
