//! Pointers into record pages, scan cursors and record flags.
use vstd::prelude::*;

verus! {

/// The trait of a page header that hands out record slots.
pub trait RecordHeader {
    fn get_next_record_offset(&self) -> u64;

    fn find_free_slot(&mut self) -> Option<usize>;

    fn occupy_slot(&mut self, slot: usize);

    fn free_slot(&mut self, slot: usize);
}

#[derive(Debug, Copy, Clone, PartialEq, Eq, Structural)]
pub enum GraphRecordFlag {
    ACTIVE,
    DELETED,
    UNCLASSIFIED,
}

pub open spec fn record_flag_code(f: GraphRecordFlag) -> u8 {
    match f {
        GraphRecordFlag::ACTIVE => 0,
        GraphRecordFlag::DELETED => 1,
        GraphRecordFlag::UNCLASSIFIED => 2,
    }
}

pub const FLAG_ACTIVE: u8 = 0;
pub const FLAG_DELETED: u8 = 1;

impl GraphRecordFlag {
    pub fn to_u8(&self) -> (r: u8)
        ensures
            r == record_flag_code(*self),
    {
        match self {
            GraphRecordFlag::ACTIVE => 0,
            GraphRecordFlag::DELETED => 1,
            GraphRecordFlag::UNCLASSIFIED => 2,
        }
    }

    /// Decodes a flags byte; a byte that names no flag comes back as the error.
    pub fn try_from(value: u8) -> (r: Result<GraphRecordFlag, u8>)
        ensures
            match r {
                Ok(f) => record_flag_code(f) == value,
                Err(v) => v == value && value > 2,
            },
    {
        match value {
            0 => Ok(GraphRecordFlag::ACTIVE),
            1 => Ok(GraphRecordFlag::DELETED),
            2 => Ok(GraphRecordFlag::UNCLASSIFIED),
            unknown => Err(unknown),
        }
    }
}

/// A record whose slot can be tombstoned.
pub trait Record: Sized + Copy {
    fn id(&self) -> u64;

    fn is_active(&self) -> bool;

    fn mark_deleted(&mut self);
}

/// A page id and a slot in that page, packed as `page_id << 8 | slot`.
/// All bits set is the null pointer.
#[derive(Debug, Copy, Clone, PartialEq, Eq, Structural)]
pub struct PackedPtr(pub u64);

pub const NULL_PTR_VALUE: u64 = 0xffff_ffff_ffff_ffff;

pub open spec fn packed(page_id: u64, slot: u8) -> u64 {
    (page_id << 8u64) | (slot as u64)
}

pub open spec fn ptr_page_id(p: PackedPtr) -> u64 {
    p.0 >> 8u64
}

pub open spec fn ptr_slot(p: PackedPtr) -> u8 {
    (p.0 & 0xffu64) as u8
}

pub open spec fn ptr_is_null(p: PackedPtr) -> bool {
    p.0 == NULL_PTR_VALUE
}

impl PackedPtr {
    pub fn null() -> (r: PackedPtr)
        ensures
            r == PackedPtr(NULL_PTR_VALUE),
            ptr_is_null(r),
    {
        PackedPtr(NULL_PTR_VALUE)
    }

    pub fn new(page_id: u64, slot: u8) -> (r: Self)
        ensures
            r.0 == packed(page_id, slot),
    {
        PackedPtr((page_id << 8u64) | (slot as u64))
    }

    pub fn page_id(&self) -> (r: u64)
        ensures
            r == ptr_page_id(*self),
    {
        self.0 >> 8u64
    }

    pub fn slot(&self) -> (r: u8)
        ensures
            r == ptr_slot(*self),
    {
        (self.0 & 0xffu64) as u8
    }

    pub fn is_null(&self) -> (r: bool)
        ensures
            r == ptr_is_null(*self),
    {
        self.0 == NULL_PTR_VALUE
    }
}

/// A pointer built from a page id below 2^56 and a slot gives both back, and
/// is null exactly when the page id is 2^56 - 1 and the slot is 255.
pub proof fn lemma_packed_ptr_roundtrip(page_id: u64, slot: u8)
    requires
        page_id < 0x100_0000_0000_0000,
    ensures
        ptr_page_id(PackedPtr(packed(page_id, slot))) == page_id,
        ptr_slot(PackedPtr(packed(page_id, slot))) == slot,
        ptr_is_null(PackedPtr(packed(page_id, slot))) == (page_id == 0xff_ffff_ffff_ffff && slot == 255),
{
    let s = slot as u64;
    assert(s < 256);
    assert(((page_id << 8u64) | s) >> 8u64 == page_id) by (bit_vector)
        requires
            page_id < 0x100_0000_0000_0000,
            s < 256,
    ;
    assert(((page_id << 8u64) | s) & 0xffu64 == s) by (bit_vector)
        requires
            page_id < 0x100_0000_0000_0000,
            s < 256,
    ;
    assert((((page_id << 8u64) | s) == 0xffff_ffff_ffff_ffffu64) == (page_id == 0xff_ffff_ffff_ffffu64 && s == 255)) by (bit_vector)
        requires
            page_id < 0x100_0000_0000_0000,
            s < 256,
    ;
}

/// The position of a scan or a chain walk: the next record to visit.
pub struct RecordCursor {
    pub next_ptr: PackedPtr,
}

impl RecordCursor {
    pub fn new(ptr: PackedPtr) -> (r: Self)
        ensures
            r.next_ptr == ptr,
    {
        RecordCursor { next_ptr: ptr }
    }

    pub fn is_done(&self) -> (r: bool)
        ensures
            r == ptr_is_null(self.next_ptr),
    {
        self.next_ptr.is_null()
    }

    pub fn ptr(&self) -> (r: PackedPtr)
        ensures
            r == self.next_ptr,
    {
        self.next_ptr
    }

    pub fn advance_to(&mut self, ptr: PackedPtr)
        ensures
            final(self).next_ptr == ptr,
    {
        self.next_ptr = ptr;
    }
}

} // verus!
