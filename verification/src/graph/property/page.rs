//! Property pages: key/value records in slots tracked by a 128-bit
//! occupancy mask.
//!
//! Layout: `[page header 32 | occupied u128, record_count u8, 15 pad |
//! 126 records of 32 bytes]`. A record is `key | value | next` (packed
//! pointers, u64 each) `| flags u8 | 7 pad`.
use vstd::prelude::*;

use crate::utils::codec::{
    group_codec, read_u8, read_u64, read_u128, put_u8, put_u64, put_u128, get_u8, get_u64, get_u128, set_u8, set_u64,
    set_u128,
};
use crate::storage::constants::{PAGE_HEADER_SIZE, PAGE_SIZE, SENTINEL_PAGE_ID};
use crate::storage::models::{NexoraPageHeader, PageType, page_type_code, view_page_header, put_page_header};
use crate::graph::property::constants::{
    PROPERTY_HEADER_SIZE, PROPERTY_RECORDS_OFFSET, PROPERTY_RECORD_SHIFT, PROPERTY_RECORD_SIZE, MAX_PROPERTY_RECORD_COUNT,
};
use crate::graph::property::error::NexoraGraphPropertyError;
use crate::graph::record::types::{GraphRecordFlag, PackedPtr, RecordHeader, FLAG_ACTIVE, FLAG_DELETED, NULL_PTR_VALUE};

verus! {

broadcast use group_codec;

/// Bit `j` of a 128-bit mask.
pub open spec fn bit128(w: u128, j: u128) -> bool {
    (w >> j) & 1u128 == 1u128
}

proof fn lemma_bit128_or(w: u128, s: u128)
    requires
        s < 128,
    ensures
        forall|j: u128| j < 128 ==> #[trigger] bit128(w | (1u128 << s), j) == (bit128(w, j) || j == s),
{
    assert forall|j: u128| j < 128 implies #[trigger] bit128(w | (1u128 << s), j) == (bit128(w, j) || j == s) by {
        assert(((w | (1u128 << s)) >> j) & 1u128 == 1u128 <==> (((w >> j) & 1u128 == 1u128) || j == s)) by (bit_vector)
            requires
                s < 128,
                j < 128,
        ;
    }
}

proof fn lemma_bit128_and_not(w: u128, s: u128)
    requires
        s < 128,
    ensures
        forall|j: u128| j < 128 ==> #[trigger] bit128(w & !(1u128 << s), j) == (bit128(w, j) && j != s),
{
    assert forall|j: u128| j < 128 implies #[trigger] bit128(w & !(1u128 << s), j) == (bit128(w, j) && j != s) by {
        assert(((w & !(1u128 << s)) >> j) & 1u128 == 1u128 <==> (((w >> j) & 1u128 == 1u128) && j != s)) by (bit_vector)
            requires
                s < 128,
                j < 128,
        ;
    }
}

proof fn lemma_bit128_test(w: u128, s: u128)
    requires
        s < 128,
    ensures
        (w & (1u128 << s) != 0) == bit128(w, s),
{
    assert((w & (1u128 << s) != 0) == ((w >> s) & 1u128 == 1u128)) by (bit_vector)
        requires
            s < 128,
    ;
}

/// The lowest slot in `[from, limit)` whose bit in `occ` is clear.
pub open spec fn lowest_clear_below(occ: u128, from: int, limit: int) -> Option<int>
    decreases limit - from,
{
    if from >= limit || from < 0 {
        None
    } else if !bit128(occ, from as u128) {
        Some(from)
    } else {
        lowest_clear_below(occ, from + 1, limit)
    }
}

proof fn lemma_lowest_clear_below(occ: u128, from: int, limit: int)
    requires
        0 <= from,
    ensures
        match lowest_clear_below(occ, from, limit) {
            Some(k) => from <= k < limit && !bit128(occ, k as u128)
                && forall|j: int| from <= j < k ==> #[trigger] bit128(occ, j as u128),
            None => forall|j: int| from <= j < limit ==> #[trigger] bit128(occ, j as u128),
        },
    decreases limit - from,
{
    if from < limit {
        lemma_lowest_clear_below(occ, from + 1, limit);
    }
}

/// The lowest slot below `limit` (at most 128) whose bit in `occ` is clear.
fn first_clear_slot(occ: u128, limit: usize) -> (r: Option<usize>)
    requires
        limit <= 128,
    ensures
        match lowest_clear_below(occ, 0, limit as int) {
            Some(k) => r == Some(k as usize),
            None => r is None,
        },
{
    proof {
        lemma_lowest_clear_below(occ, 0, limit as int);
    }
    let mut j: usize = 0;
    while j < limit
        invariant
            j <= limit <= 128,
            lowest_clear_below(occ, 0, limit as int) == lowest_clear_below(occ, j as int, limit as int),
        decreases limit - j,
    {
        if (occ >> (j as u128)) & 1u128 != 1u128 {
            return Some(j);
        }
        j = j + 1;
    }
    None
}

#[derive(Debug, Copy, Clone, PartialEq, Eq, Structural)]
pub struct PropertyPageHeader {
    pub occupied: u128,
    pub record_count: u8,
}

/// The slots the mask speaks of: those below the record count, and never
/// more than the 128 bits of the mask.
pub open spec fn mask_limit(record_count: u8) -> int {
    if record_count < 128 { record_count as int } else { 128 }
}

/// The slot `find_free_slot` hands out: the lowest freed slot below the
/// record count, else the next unused slot, else none.
pub open spec fn spec_prop_find_free_slot(h: PropertyPageHeader) -> Option<usize> {
    match lowest_clear_below(h.occupied, 0, mask_limit(h.record_count)) {
        Some(k) => Some(k as usize),
        None => if (h.record_count as usize) < MAX_PROPERTY_RECORD_COUNT {
            Some(h.record_count as usize)
        } else {
            None
        },
    }
}

impl PropertyPageHeader {
    pub fn init() -> (r: Self)
        ensures
            r == (PropertyPageHeader { occupied: 0, record_count: 0 }),
    {
        PropertyPageHeader { occupied: 0, record_count: 0 }
    }
}

impl RecordHeader for PropertyPageHeader {
    /// Where the next record goes, or the sentinel when the page is full.
    fn get_next_record_offset(&self) -> (r: u64)
        ensures
            r == if self.record_count >= MAX_PROPERTY_RECORD_COUNT {
                SENTINEL_PAGE_ID as int
            } else {
                PROPERTY_RECORDS_OFFSET + self.record_count * PROPERTY_RECORD_SIZE
            },
    {
        if self.record_count as usize >= MAX_PROPERTY_RECORD_COUNT {
            return SENTINEL_PAGE_ID;
        }
        let rc = self.record_count as usize;
        assert(rc << PROPERTY_RECORD_SHIFT == rc * 32) by (bit_vector)
            requires
                rc < 126,
        ;
        (PAGE_HEADER_SIZE + PROPERTY_HEADER_SIZE + (rc << PROPERTY_RECORD_SHIFT)) as u64
    }

    fn find_free_slot(&mut self) -> (r: Option<usize>)
        ensures
            *final(self) == *old(self),
            r == spec_prop_find_free_slot(*old(self)),
    {
        let limit: usize = if self.record_count < 128 { self.record_count as usize } else { 128 };
        match first_clear_slot(self.occupied, limit) {
            Some(k) => Some(k),
            None => if (self.record_count as usize) < MAX_PROPERTY_RECORD_COUNT {
                Some(self.record_count as usize)
            } else {
                None
            },
        }
    }

    fn occupy_slot(&mut self, slot: usize)
        ensures
            final(self).occupied == if slot < 128 { old(self).occupied | (1u128 << slot as u128) } else { old(self).occupied },
            final(self).record_count == if slot == old(self).record_count && old(self).record_count < 255 {
                (old(self).record_count + 1) as u8
            } else {
                old(self).record_count
            },
    {
        if slot < 128 {
            self.occupied = self.occupied | (1u128 << slot as u128);
        }
        if slot == self.record_count as usize && self.record_count < 255 {
            self.record_count = self.record_count + 1;
        }
    }

    fn free_slot(&mut self, slot: usize)
        ensures
            final(self).occupied == if slot < 128 { old(self).occupied & !(1u128 << slot as u128) } else { old(self).occupied },
            final(self).record_count == old(self).record_count,
    {
        if slot < 128 {
            self.occupied = self.occupied & !(1u128 << slot as u128);
        }
    }
}

#[derive(Debug, Copy, Clone, PartialEq, Eq, Structural)]
pub struct PropertyPageRecord {
    pub key: PackedPtr,
    pub value: PackedPtr,
    pub next: PackedPtr,
    pub flags: u8,
}

impl PropertyPageRecord {
    /// The record every slot of a fresh page holds: null pointers, active.
    pub fn empty() -> (r: Self)
        ensures
            r == (PropertyPageRecord {
                key: PackedPtr(NULL_PTR_VALUE),
                value: PackedPtr(NULL_PTR_VALUE),
                next: PackedPtr(NULL_PTR_VALUE),
                flags: FLAG_ACTIVE,
            }),
    {
        PropertyPageRecord {
            key: PackedPtr::null(),
            value: PackedPtr::null(),
            next: PackedPtr::null(),
            flags: GraphRecordFlag::ACTIVE.to_u8(),
        }
    }
}

pub open spec fn property_record_offset(slot: int) -> int {
    PROPERTY_RECORDS_OFFSET + PROPERTY_RECORD_SIZE * slot
}

pub open spec fn property_record(s: Seq<u8>, slot: int) -> PropertyPageRecord {
    let o = property_record_offset(slot);
    PropertyPageRecord {
        key: PackedPtr(read_u64(s, o)),
        value: PackedPtr(read_u64(s, o + 8)),
        next: PackedPtr(read_u64(s, o + 16)),
        flags: read_u8(s, o + 24),
    }
}

pub open spec fn put_property_record(s: Seq<u8>, slot: int, r: PropertyPageRecord) -> Seq<u8> {
    let o = property_record_offset(slot);
    put_u8(put_u64(put_u64(put_u64(s, o, r.key.0), o + 8, r.value.0), o + 16, r.next.0), o + 24, r.flags)
}

pub open spec fn view_property_header(s: Seq<u8>) -> PropertyPageHeader {
    PropertyPageHeader { occupied: read_u128(s, 32), record_count: read_u8(s, 48) }
}

/// Whether slot `slot` of page `s` holds a live record.
pub open spec fn property_slot_live(s: Seq<u8>, slot: int) -> bool {
    let h = view_property_header(s);
    &&& 0 <= slot < h.record_count
    &&& slot < MAX_PROPERTY_RECORD_COUNT
    &&& bit128(h.occupied, slot as u128)
}

/// What reading slot `index` of page `s` gives.
pub open spec fn spec_get_record(s: Seq<u8>, index: int) -> Result<PropertyPageRecord, NexoraGraphPropertyError> {
    if property_slot_live(s, index) {
        Ok(property_record(s, index))
    } else {
        Err(NexoraGraphPropertyError::RecordNotFound)
    }
}

/// Whether page `s` has no slot to hand out.
pub open spec fn spec_property_page_full(s: Seq<u8>) -> bool {
    let h = view_property_header(s);
    h.record_count >= MAX_PROPERTY_RECORD_COUNT && lowest_clear_below(h.occupied, 0, mask_limit(h.record_count)) is None
}

/// What inserting a record into page `s` gives: its slot and the page after.
pub open spec fn spec_insert_record(s: Seq<u8>, key: PackedPtr, value: PackedPtr, next: PackedPtr) -> Result<(usize, Seq<u8>), NexoraGraphPropertyError> {
    let h = view_property_header(s);
    match spec_prop_find_free_slot(h) {
        None => Err(NexoraGraphPropertyError::PageFull),
        Some(slot) => if slot >= MAX_PROPERTY_RECORD_COUNT {
            Err(NexoraGraphPropertyError::PageFull)
        } else {
            let s1 = put_property_record(s, slot as int, PropertyPageRecord { key, value, next, flags: FLAG_ACTIVE });
            let s2 = put_u128(s1, 32, h.occupied | (1u128 << slot as u128));
            Ok((slot, if slot == h.record_count && h.record_count < 255 { put_u8(s2, 48, (h.record_count + 1) as u8) } else { s2 }))
        },
    }
}

/// Page `s` with slot `index` tombstoned and freed.
pub open spec fn spec_delete_record(s: Seq<u8>, index: int) -> Seq<u8> {
    let s1 = put_u8(s, property_record_offset(index) + 24, FLAG_DELETED);
    put_u128(s1, 32, read_u128(s1, 32) & !(1u128 << index as u128))
}

/// The bytes a fresh page is made from: zeros, with every record slot
/// holding null pointers.
pub open spec fn empty_property_page_bytes() -> Seq<u8> {
    Seq::new(PAGE_SIZE as nat, |i: int| if i >= PROPERTY_RECORDS_OFFSET && (i - PROPERTY_RECORDS_OFFSET) % 32 < 24 { 0xffu8 } else { 0u8 })
}

/// The bytes of a fresh property page `page_id`.
pub open spec fn spec_property_page_init(page_id: u64) -> Seq<u8> {
    put_page_header(
        empty_property_page_bytes(),
        NexoraPageHeader {
            page_id,
            next_page_id: SENTINEL_PAGE_ID,
            prev_page_id: SENTINEL_PAGE_ID,
            checksum: 0,
            page_type: page_type_code(PageType::Property),
        },
    )
}

/// Two property pages that agree from the property header on read the same
/// records.
pub proof fn lemma_property_page_same_tail(s: Seq<u8>, t: Seq<u8>)
    requires
        s.len() == PAGE_SIZE,
        t.len() == PAGE_SIZE,
        forall|k: int| 32 <= k < PAGE_SIZE ==> #[trigger] s[k] == t[k],
    ensures
        forall|i: int| 0 <= i < MAX_PROPERTY_RECORD_COUNT ==> #[trigger] spec_get_record(s, i) == spec_get_record(t, i),
{
    assert(s.subrange(32, 48) =~= t.subrange(32, 48));
    assert forall|i: int| 0 <= i < MAX_PROPERTY_RECORD_COUNT implies #[trigger] spec_get_record(s, i) == spec_get_record(t, i) by {
        let o = property_record_offset(i);
        assert(s.subrange(o, o + 8) =~= t.subrange(o, o + 8));
        assert(s.subrange(o + 8, o + 16) =~= t.subrange(o + 8, o + 16));
        assert(s.subrange(o + 16, o + 24) =~= t.subrange(o + 16, o + 24));
    }
}

/// Setting the value (`field` 8) or next (`field` 16) pointer of a record
/// reads back in that record and changes nothing else of it.
pub proof fn lemma_property_field_write(s: Seq<u8>, slot: int, field: int, v: u64)
    requires
        s.len() == PAGE_SIZE,
        0 <= slot < MAX_PROPERTY_RECORD_COUNT,
        field == 8 || field == 16,
    ensures
        spec_get_record(put_u64(s, property_record_offset(slot) + field, v), slot) == match spec_get_record(s, slot) {
            Ok(r) => Ok::<PropertyPageRecord, NexoraGraphPropertyError>(
                if field == 8 { PropertyPageRecord { value: PackedPtr(v), ..r } } else { PropertyPageRecord { next: PackedPtr(v), ..r } },
            ),
            Err(e) => Err(e),
        },
{
    let t = put_u64(s, property_record_offset(slot) + field, v);
    let o = property_record_offset(slot);
    assert(t.subrange(32, 48) =~= s.subrange(32, 48));
    assert(t.subrange(o, o + 8) =~= s.subrange(o, o + 8));
    if field == 8 {
        assert(t.subrange(o + 16, o + 24) =~= s.subrange(o + 16, o + 24));
    } else {
        assert(t.subrange(o + 8, o + 16) =~= s.subrange(o + 8, o + 16));
    }
}

/// A record inserted into a page reads back from the slot it was given.
pub proof fn lemma_property_page_insert_then_get(s: Seq<u8>, key: PackedPtr, value: PackedPtr, next: PackedPtr)
    requires
        s.len() == PAGE_SIZE,
        spec_insert_record(s, key, value, next) is Ok,
    ensures
        ({
            let (slot, s2) = spec_insert_record(s, key, value, next)->Ok_0;
            spec_get_record(s2, slot as int) == Ok::<PropertyPageRecord, NexoraGraphPropertyError>(
                PropertyPageRecord { key, value, next, flags: FLAG_ACTIVE },
            )
        }),
{
    let h = view_property_header(s);
    let (slot, s2) = spec_insert_record(s, key, value, next)->Ok_0;
    lemma_lowest_clear_below(h.occupied, 0, mask_limit(h.record_count));
    lemma_bit128_or(h.occupied, slot as u128);
    assert(bit128(h.occupied | (1u128 << slot as u128), slot as u128));
}

/// A deleted slot no longer reads back.
pub proof fn lemma_property_page_delete_then_get(s: Seq<u8>, index: int)
    requires
        s.len() == PAGE_SIZE,
        0 <= index < MAX_PROPERTY_RECORD_COUNT,
    ensures
        spec_get_record(spec_delete_record(s, index), index) == Err::<PropertyPageRecord, NexoraGraphPropertyError>(
            NexoraGraphPropertyError::RecordNotFound,
        ),
{
    let s1 = put_u8(s, property_record_offset(index) + 24, FLAG_DELETED);
    lemma_bit128_and_not(read_u128(s1, 32), index as u128);
}

/// A property page, kept as its bytes.
pub struct GraphPropertyPage {
    bytes: Vec<u8>,
}

impl View for GraphPropertyPage {
    type V = Seq<u8>;

    closed spec fn view(&self) -> Seq<u8> {
        self.bytes@
    }
}

impl GraphPropertyPage {
    pub open spec fn inv(&self) -> bool {
        self@.len() == PAGE_SIZE
    }

    pub fn from_bytes(bytes: Vec<u8>) -> (r: Self)
        requires
            bytes@.len() == PAGE_SIZE,
        ensures
            r@ == bytes@,
            r.inv(),
    {
        GraphPropertyPage { bytes }
    }

    pub fn as_bytes(&self) -> (r: &[u8])
        ensures
            r@ == self@,
    {
        self.bytes.as_slice()
    }

    /// A fresh page: a property page header, no records in use, every slot
    /// holding the empty record.
    pub fn init(page_id: u64) -> (r: Self)
        ensures
            r@ == spec_property_page_init(page_id),
            r.inv(),
    {
        let mut bytes: Vec<u8> = Vec::new();
        let mut i: usize = 0;
        while i < PAGE_SIZE
            invariant
                i <= PAGE_SIZE,
                bytes@.len() == i,
                forall|j: int| 0 <= j < i ==> #[trigger] bytes@[j] == empty_property_page_bytes()[j],
            decreases PAGE_SIZE - i,
        {
            let b: u8 = if i >= PROPERTY_RECORDS_OFFSET && (i - PROPERTY_RECORDS_OFFSET) % 32 < 24 { 0xff } else { 0 };
            bytes.push(b);
            i = i + 1;
        }
        assert(bytes@ =~= empty_property_page_bytes());
        let h = NexoraPageHeader { page_type: PageType::Property.to_u8(), ..NexoraPageHeader::init(page_id) };
        h.write_to(&mut bytes);
        GraphPropertyPage { bytes }
    }

    pub fn page_header(&self) -> (r: NexoraPageHeader)
        requires
            self.inv(),
        ensures
            r == view_page_header(self@),
    {
        NexoraPageHeader::read_from(self.bytes.as_slice())
    }

    pub fn set_next_page_id(&mut self, next_page_id: u64)
        requires
            old(self).inv(),
        ensures
            final(self)@ == put_u64(old(self)@, 8, next_page_id),
            final(self).inv(),
    {
        set_u64(&mut self.bytes, 8, next_page_id);
    }

    pub fn property_page_header(&self) -> (r: PropertyPageHeader)
        requires
            self.inv(),
        ensures
            r == view_property_header(self@),
    {
        PropertyPageHeader { occupied: get_u128(self.bytes.as_slice(), 32), record_count: get_u8(self.bytes.as_slice(), 48) }
    }

    fn record(&self, slot: usize) -> (r: PropertyPageRecord)
        requires
            self.inv(),
            slot < MAX_PROPERTY_RECORD_COUNT,
        ensures
            r == property_record(self@, slot as int),
    {
        let o = PROPERTY_RECORDS_OFFSET + PROPERTY_RECORD_SIZE * slot;
        PropertyPageRecord {
            key: PackedPtr(get_u64(self.bytes.as_slice(), o)),
            value: PackedPtr(get_u64(self.bytes.as_slice(), o + 8)),
            next: PackedPtr(get_u64(self.bytes.as_slice(), o + 16)),
            flags: get_u8(self.bytes.as_slice(), o + 24),
        }
    }

    /// Writes the pointer field at offset `field` of record `slot`.
    pub fn set_record_ptr(&mut self, slot: usize, field: usize, p: PackedPtr)
        requires
            old(self).inv(),
            slot < MAX_PROPERTY_RECORD_COUNT,
            field + 8 <= PROPERTY_RECORD_SIZE,
        ensures
            final(self)@ == put_u64(old(self)@, property_record_offset(slot as int) + field, p.0),
            final(self).inv(),
    {
        set_u64(&mut self.bytes, PROPERTY_RECORDS_OFFSET + PROPERTY_RECORD_SIZE * slot + field, p.0);
    }

    /// Stores a record in a free slot; returns the slot.
    pub fn insert_record(&mut self, key: PackedPtr, value: PackedPtr, next: PackedPtr) -> (r: Result<usize, NexoraGraphPropertyError>)
        requires
            old(self).inv(),
        ensures
            final(self).inv(),
            match spec_insert_record(old(self)@, key, value, next) {
                Err(e) => r == Err::<usize, NexoraGraphPropertyError>(e) && final(self)@ == old(self)@,
                Ok((slot, s)) => r == Ok::<usize, NexoraGraphPropertyError>(slot) && final(self)@ == s,
            },
    {
        let mut h = self.property_page_header();
        let slot = match h.find_free_slot() {
            Some(s) => s,
            None => return Err(NexoraGraphPropertyError::PageFull),
        };
        if slot >= MAX_PROPERTY_RECORD_COUNT {
            return Err(NexoraGraphPropertyError::PageFull);
        }
        let o = PROPERTY_RECORDS_OFFSET + PROPERTY_RECORD_SIZE * slot;
        set_u64(&mut self.bytes, o, key.0);
        set_u64(&mut self.bytes, o + 8, value.0);
        set_u64(&mut self.bytes, o + 16, next.0);
        set_u8(&mut self.bytes, o + 24, GraphRecordFlag::ACTIVE.to_u8());
        h.occupy_slot(slot);
        set_u128(&mut self.bytes, 32, h.occupied);
        if h.record_count != get_u8(self.bytes.as_slice(), 48) {
            set_u8(&mut self.bytes, 48, h.record_count);
        }
        Ok(slot)
    }

    /// The live record in slot `index`.
    pub fn get_record(&self, index: usize) -> (r: Result<PropertyPageRecord, NexoraGraphPropertyError>)
        requires
            self.inv(),
        ensures
            r == spec_get_record(self@, index as int),
    {
        let h = self.property_page_header();
        if index >= h.record_count as usize || index >= MAX_PROPERTY_RECORD_COUNT {
            return Err(NexoraGraphPropertyError::RecordNotFound);
        }
        proof {
            lemma_bit128_test(h.occupied, index as u128);
        }
        if h.occupied & (1u128 << index as u128) == 0 {
            return Err(NexoraGraphPropertyError::RecordNotFound);
        }
        Ok(self.record(index))
    }

    /// Tombstones slot `index` and clears its occupancy bit.
    pub fn delete_record(&mut self, index: usize)
        requires
            old(self).inv(),
            index < MAX_PROPERTY_RECORD_COUNT,
        ensures
            final(self)@ == spec_delete_record(old(self)@, index as int),
            final(self).inv(),
    {
        set_u8(&mut self.bytes, PROPERTY_RECORDS_OFFSET + PROPERTY_RECORD_SIZE * index + 24, GraphRecordFlag::DELETED.to_u8());
        let mut h = self.property_page_header();
        h.free_slot(index);
        set_u128(&mut self.bytes, 32, h.occupied);
    }

    /// Whether no slot is left: all slots in use and none freed.
    pub fn is_full(&self) -> (r: bool)
        requires
            self.inv(),
        ensures
            r == spec_property_page_full(self@),
    {
        let h = self.property_page_header();
        let record_count = h.record_count as usize;
        if record_count < MAX_PROPERTY_RECORD_COUNT {
            return false;
        }
        let limit: usize = if record_count < 128 { record_count } else { 128 };
        first_clear_slot(h.occupied, limit).is_none()
    }
}

} // verus!
