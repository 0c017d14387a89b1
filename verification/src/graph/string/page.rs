//! String pages: variable-length byte strings in a slotted page.
//!
//! Layout: `[page header 32 | occupied 4 x u64, slot_count u16,
//! record_offset u16, 28 pad | buffer 4000]`. Slots of 16 bytes grow from
//! the start of the buffer (`overflow_slot u64 | total_length u16 |
//! chunk_length u16 | offset u16 | 2 pad`); string bytes grow down from its
//! end, `record_offset` marking the lowest byte in use.
use vstd::prelude::*;

use crate::utils::codec::{
    group_codec, read_u16, read_u64, put_bytes, put_u16, put_u64, get_u16, get_u64, set_bytes, set_u16, set_u64,
};
use crate::utils::containers::bitsets::{word_bit, lemma_word_or, lemma_word_and_not};
use crate::storage::constants::{PAGE_HEADER_SIZE, PAGE_SIZE};
use crate::storage::models::{NexoraPageHeader, view_page_header, put_page_header, zero_page};
use crate::storage::page_store::zero_bytes;
use crate::graph::string::constants::{
    STRING_PAGE_BUFFER_OFFSET, STRING_PAGE_BUFFER_SIZE, STRING_PAGE_HEADER_SIZE, STRING_PAGE_SLOT_SIZE,
};
use crate::graph::string::error::NexoraGraphStringError;
use crate::graph::record::types::PackedPtr;

verus! {

broadcast use group_codec;

pub fn get_graph_string_page_buffer_size() -> (r: usize)
    ensures
        r == PAGE_SIZE - PAGE_HEADER_SIZE - STRING_PAGE_HEADER_SIZE,
{
    PAGE_SIZE - PAGE_HEADER_SIZE - STRING_PAGE_HEADER_SIZE
}

pub const SLOT_COUNT_OFFSET: usize = 64;
pub const RECORD_OFFSET_OFFSET: usize = 66;
pub const OCCUPIED_OFFSET: usize = 32;

#[derive(Debug, Copy, Clone)]
pub struct GraphStringPageHeader {
    pub occupied: [u64; 4],
    pub slot_count: u16,
    pub record_offset: u16,
}

impl GraphStringPageHeader {
    pub fn init() -> (r: Self)
        ensures
            r.slot_count == 0,
            r.record_offset == STRING_PAGE_BUFFER_SIZE,
            r.occupied@ == seq![0u64, 0u64, 0u64, 0u64],
    {
        let r = Self { occupied: [0u64, 0u64, 0u64, 0u64], slot_count: 0, record_offset: get_graph_string_page_buffer_size() as u16 };
        assert(r.occupied@ =~= seq![0u64, 0u64, 0u64, 0u64]);
        r
    }
}

#[derive(Debug, Copy, Clone, PartialEq, Eq, Structural)]
pub struct GraphStringSlot {
    pub overflow_slot: PackedPtr,
    pub total_length: u16,
    pub chunk_length: u16,
    pub offset: u16,
}

pub open spec fn string_slot_count(s: Seq<u8>) -> u16 {
    read_u16(s, SLOT_COUNT_OFFSET as int)
}

pub open spec fn string_record_offset(s: Seq<u8>) -> u16 {
    read_u16(s, RECORD_OFFSET_OFFSET as int)
}

pub open spec fn string_slot_offset(i: int) -> int {
    STRING_PAGE_BUFFER_OFFSET + STRING_PAGE_SLOT_SIZE * i
}

pub open spec fn string_slot(s: Seq<u8>, i: int) -> GraphStringSlot {
    let o = string_slot_offset(i);
    GraphStringSlot {
        overflow_slot: PackedPtr(read_u64(s, o)),
        total_length: read_u16(s, o + 8),
        chunk_length: read_u16(s, o + 10),
        offset: read_u16(s, o + 12),
    }
}

pub open spec fn put_string_slot(s: Seq<u8>, i: int, slot: GraphStringSlot) -> Seq<u8> {
    let o = string_slot_offset(i);
    put_u16(put_u16(put_u16(put_u64(s, o, slot.overflow_slot.0), o + 8, slot.total_length), o + 10, slot.chunk_length), o + 12, slot.offset)
}

/// The occupied-bit word that holds bit `b`.
pub open spec fn occupied_word_offset(b: int) -> int {
    OCCUPIED_OFFSET + 8 * (b / 64)
}

/// The string bytes of slot `i`.
pub open spec fn string_slot_data(s: Seq<u8>, i: int) -> Seq<u8> {
    let slot = string_slot(s, i);
    s.subrange(
        STRING_PAGE_BUFFER_OFFSET + slot.offset as int,
        STRING_PAGE_BUFFER_OFFSET + slot.offset as int + slot.chunk_length as int,
    )
}

/// Room left between the slots and the string bytes for one more slot.
pub open spec fn spec_available_data(s: Seq<u8>) -> int {
    let next_slot_end = (string_slot_count(s) + 1) * STRING_PAGE_SLOT_SIZE;
    if string_record_offset(s) >= next_slot_end {
        string_record_offset(s) - next_slot_end
    } else {
        0
    }
}

/// What inserting a chunk into page `s` gives: the slot it lands in and the
/// page afterwards, or `NoFreeSlot` when it does not fit.
pub open spec fn spec_insert_slot(s: Seq<u8>, total_length: u16, data: Seq<u8>, overflow: PackedPtr) -> Result<(usize, Seq<u8>), NexoraGraphStringError> {
    let sc = string_slot_count(s) as int;
    let ro = string_record_offset(s) as int;
    if ro > STRING_PAGE_BUFFER_SIZE || ro < data.len() || (sc + 1) * STRING_PAGE_SLOT_SIZE > ro - data.len() {
        Err(NexoraGraphStringError::NoFreeSlot)
    } else {
        let nro = ro - data.len();
        let s1 = put_bytes(s, STRING_PAGE_BUFFER_OFFSET + nro, data);
        let s2 = put_string_slot(
            s1,
            sc,
            GraphStringSlot { overflow_slot: overflow, total_length, chunk_length: data.len() as u16, offset: nro as u16 },
        );
        let s3 = put_u16(put_u16(s2, SLOT_COUNT_OFFSET as int, (sc + 1) as u16), RECORD_OFFSET_OFFSET as int, nro as u16);
        let w = read_u64(s3, occupied_word_offset(sc));
        Ok((sc as usize, put_u64(s3, occupied_word_offset(sc), w | (1u64 << ((sc % 64) as u64)))))
    }
}

/// What reading slot `index` of page `s` gives.
pub open spec fn spec_get_slot(s: Seq<u8>, index: int) -> Result<GraphStringSlot, NexoraGraphStringError> {
    if index >= string_slot_count(s) || index >= STRING_PAGE_BUFFER_SIZE / STRING_PAGE_SLOT_SIZE {
        Err(NexoraGraphStringError::SlotNotFound)
    } else {
        Ok(string_slot(s, index))
    }
}

/// The bytes of a fresh string page `page_id`.
pub open spec fn spec_string_page_init(page_id: u64) -> Seq<u8> {
    put_u16(put_u16(put_page_header(zero_bytes(), NexoraPageHeader {
        page_id,
        next_page_id: crate::storage::constants::SENTINEL_PAGE_ID,
        prev_page_id: crate::storage::constants::SENTINEL_PAGE_ID,
        checksum: 0,
        page_type: 0,
    }), SLOT_COUNT_OFFSET as int, 0), RECORD_OFFSET_OFFSET as int, STRING_PAGE_BUFFER_SIZE as u16)
}

/// Two pages that agree from the slot count on hold the same slots and the
/// same string bytes.
pub proof fn lemma_string_page_same_tail(s: Seq<u8>, t: Seq<u8>)
    requires
        s.len() == PAGE_SIZE,
        t.len() == PAGE_SIZE,
        forall|k: int| SLOT_COUNT_OFFSET <= k < PAGE_SIZE ==> #[trigger] s[k] == t[k],
    ensures
        string_slot_count(s) == string_slot_count(t),
        string_record_offset(s) == string_record_offset(t),
        forall|i: int| 0 <= i < STRING_PAGE_BUFFER_SIZE / STRING_PAGE_SLOT_SIZE ==> #[trigger] string_slot(s, i) == string_slot(t, i),
        forall|i: int|
            0 <= i < STRING_PAGE_BUFFER_SIZE / STRING_PAGE_SLOT_SIZE
                && string_slot(s, i).offset + string_slot(s, i).chunk_length <= STRING_PAGE_BUFFER_SIZE
                ==> #[trigger] string_slot_data(s, i) == string_slot_data(t, i),
{
    assert(s.subrange(64, 66) =~= t.subrange(64, 66));
    assert(s.subrange(66, 68) =~= t.subrange(66, 68));
    assert forall|i: int| 0 <= i < STRING_PAGE_BUFFER_SIZE / STRING_PAGE_SLOT_SIZE implies #[trigger] string_slot(s, i) == string_slot(t, i) by {
        let o = string_slot_offset(i);
        assert(s.subrange(o, o + 8) =~= t.subrange(o, o + 8));
        assert(s.subrange(o + 8, o + 10) =~= t.subrange(o + 8, o + 10));
        assert(s.subrange(o + 10, o + 12) =~= t.subrange(o + 10, o + 12));
        assert(s.subrange(o + 12, o + 14) =~= t.subrange(o + 12, o + 14));
    }
    assert forall|i: int|
        0 <= i < STRING_PAGE_BUFFER_SIZE / STRING_PAGE_SLOT_SIZE
            && string_slot(s, i).offset + string_slot(s, i).chunk_length <= STRING_PAGE_BUFFER_SIZE
        implies #[trigger] string_slot_data(s, i) == string_slot_data(t, i) by {
        assert(string_slot(s, i) == string_slot(t, i));
        assert(string_slot_data(s, i) =~= string_slot_data(t, i));
    }
}

/// Storing a chunk in a page adds a last slot that describes the chunk and
/// holds its bytes, and keeps every earlier slot whose bytes lie at or above
/// the record offset, with its bytes.
pub proof fn lemma_insert_slot_reads_back(s: Seq<u8>, total_length: u16, data: Seq<u8>, overflow: PackedPtr)
    requires
        s.len() == PAGE_SIZE,
        spec_insert_slot(s, total_length, data, overflow) is Ok,
    ensures
        ({
            let r = spec_insert_slot(s, total_length, data, overflow)->Ok_0;
            let slot = r.0 as int;
            let s2 = r.1;
            &&& s2.len() == PAGE_SIZE
            &&& slot == string_slot_count(s)
            &&& slot < STRING_PAGE_BUFFER_SIZE / STRING_PAGE_SLOT_SIZE
            &&& string_slot_count(s2) == slot + 1
            &&& string_record_offset(s2) == string_record_offset(s) - data.len()
            &&& string_slot(s2, slot) == (GraphStringSlot {
                overflow_slot: overflow,
                total_length,
                chunk_length: data.len() as u16,
                offset: string_record_offset(s2),
            })
            &&& string_slot_data(s2, slot) == data
            &&& forall|k: int| 0 <= k < OCCUPIED_OFFSET ==> #[trigger] s2[k] == s[k]
            &&& forall|i: int|
                0 <= i < slot && string_slot(s, i).offset >= string_record_offset(s)
                    && string_slot(s, i).offset + string_slot(s, i).chunk_length <= STRING_PAGE_BUFFER_SIZE
                    ==> #[trigger] string_slot(s2, i) == string_slot(s, i) && string_slot_data(s2, i) == string_slot_data(s, i)
        }),
{
    let sc = string_slot_count(s) as int;
    let ro = string_record_offset(s) as int;
    let nro = ro - data.len();
    let s1 = put_bytes(s, STRING_PAGE_BUFFER_OFFSET + nro, data);
    let ns = GraphStringSlot { overflow_slot: overflow, total_length, chunk_length: data.len() as u16, offset: nro as u16 };
    let s2 = put_string_slot(s1, sc, ns);
    let s3 = put_u16(put_u16(s2, SLOT_COUNT_OFFSET as int, (sc + 1) as u16), RECORD_OFFSET_OFFSET as int, nro as u16);
    let w = read_u64(s3, occupied_word_offset(sc));
    let s4 = put_u64(s3, occupied_word_offset(sc), w | (1u64 << ((sc % 64) as u64)));
    let o = string_slot_offset(sc);
    assert(s4.len() == PAGE_SIZE);
    // the new slot entry and the new bytes
    assert(s4.subrange(o, o + 8) =~= s2.subrange(o, o + 8));
    assert(s4.subrange(o + 8, o + 10) =~= s2.subrange(o + 8, o + 10));
    assert(s4.subrange(o + 10, o + 12) =~= s2.subrange(o + 10, o + 12));
    assert(s4.subrange(o + 12, o + 14) =~= s2.subrange(o + 12, o + 14));
    assert(string_slot(s2, sc) == ns);
    assert(string_slot(s4, sc) == ns);
    assert(string_slot_data(s4, sc) =~= data);
    assert(s4.subrange(64, 66) =~= s3.subrange(64, 66));
    assert(s4.subrange(66, 68) =~= s3.subrange(66, 68));
    // earlier slots
    assert forall|i: int|
        0 <= i < sc && string_slot(s, i).offset >= ro
            && string_slot(s, i).offset + string_slot(s, i).chunk_length <= STRING_PAGE_BUFFER_SIZE
        implies #[trigger] string_slot(s4, i) == string_slot(s, i) && string_slot_data(s4, i) == string_slot_data(s, i) by {
        let oi = string_slot_offset(i);
        assert(s4.subrange(oi, oi + 8) =~= s.subrange(oi, oi + 8));
        assert(s4.subrange(oi + 8, oi + 10) =~= s.subrange(oi + 8, oi + 10));
        assert(s4.subrange(oi + 10, oi + 12) =~= s.subrange(oi + 10, oi + 12));
        assert(s4.subrange(oi + 12, oi + 14) =~= s.subrange(oi + 12, oi + 14));
        assert(string_slot(s4, i) == string_slot(s, i));
        assert(string_slot_data(s4, i) =~= string_slot_data(s, i));
    }
}

/// A string page, kept as its bytes.
pub struct GraphStringPage {
    bytes: Vec<u8>,
}

impl View for GraphStringPage {
    type V = Seq<u8>;

    closed spec fn view(&self) -> Seq<u8> {
        self.bytes@
    }
}

impl GraphStringPage {
    pub open spec fn inv(&self) -> bool {
        self@.len() == PAGE_SIZE
    }

    pub fn from_bytes(bytes: Vec<u8>) -> (r: Self)
        requires
            bytes@.len() == PAGE_SIZE,
        ensures
            r@ == bytes@,
            r.inv(),
    {
        GraphStringPage { bytes }
    }

    pub fn as_bytes(&self) -> (r: &[u8])
        ensures
            r@ == self@,
    {
        self.bytes.as_slice()
    }

    /// A fresh page: an initial page header, no slots, the whole buffer free.
    pub fn init(page_id: u64) -> (r: Self)
        ensures
            r@ == spec_string_page_init(page_id),
            r.inv(),
    {
        let mut bytes = zero_page();
        assert(bytes@ =~= zero_bytes());
        let h = NexoraPageHeader::init(page_id);
        h.write_to(&mut bytes);
        let sh = GraphStringPageHeader::init();
        set_u16(&mut bytes, SLOT_COUNT_OFFSET, sh.slot_count);
        set_u16(&mut bytes, RECORD_OFFSET_OFFSET, sh.record_offset);
        GraphStringPage { bytes }
    }

    pub fn page_header(&self) -> (r: NexoraPageHeader)
        requires
            self.inv(),
        ensures
            r == view_page_header(self@),
    {
        NexoraPageHeader::read_from(self.bytes.as_slice())
    }

    pub fn set_page_header(&mut self, h: NexoraPageHeader)
        requires
            old(self).inv(),
        ensures
            final(self)@ == put_page_header(old(self)@, h),
            final(self).inv(),
    {
        h.write_to(&mut self.bytes);
    }

    pub fn string_page_header(&self) -> (r: GraphStringPageHeader)
        requires
            self.inv(),
        ensures
            r.slot_count == string_slot_count(self@),
            r.record_offset == string_record_offset(self@),
            forall|k: int| 0 <= k < 4 ==> #[trigger] r.occupied[k] == read_u64(self@, OCCUPIED_OFFSET + 8 * k),
    {
        let b = self.bytes.as_slice();
        GraphStringPageHeader {
            occupied: [get_u64(b, 32), get_u64(b, 40), get_u64(b, 48), get_u64(b, 56)],
            slot_count: get_u16(b, SLOT_COUNT_OFFSET),
            record_offset: get_u16(b, RECORD_OFFSET_OFFSET),
        }
    }

    /// Stores a chunk of `data` and a slot that describes it; returns the slot.
    pub fn insert_slot(&mut self, total_length: u16, data: &[u8], overflow: PackedPtr) -> (r: Result<usize, NexoraGraphStringError>)
        requires
            old(self).inv(),
        ensures
            final(self).inv(),
            match spec_insert_slot(old(self)@, total_length, data@, overflow) {
                Err(e) => r == Err::<usize, NexoraGraphStringError>(e) && final(self)@ == old(self)@,
                Ok((slot, s)) => r == Ok::<usize, NexoraGraphStringError>(slot) && final(self)@ == s,
            },
    {
        let slot_count = get_u16(self.bytes.as_slice(), SLOT_COUNT_OFFSET) as usize;
        let record_offset = get_u16(self.bytes.as_slice(), RECORD_OFFSET_OFFSET) as usize;
        if record_offset > STRING_PAGE_BUFFER_SIZE || record_offset < data.len() {
            return Err(NexoraGraphStringError::NoFreeSlot);
        }
        let next_slot_end = (slot_count + 1) * STRING_PAGE_SLOT_SIZE;
        let new_record_offset = record_offset - data.len();
        if next_slot_end > new_record_offset {
            return Err(NexoraGraphStringError::NoFreeSlot);
        }
        set_bytes(&mut self.bytes, STRING_PAGE_BUFFER_OFFSET + new_record_offset, data);
        let o = STRING_PAGE_BUFFER_OFFSET + slot_count * STRING_PAGE_SLOT_SIZE;
        set_u64(&mut self.bytes, o, overflow.0);
        set_u16(&mut self.bytes, o + 8, total_length);
        set_u16(&mut self.bytes, o + 10, data.len() as u16);
        set_u16(&mut self.bytes, o + 12, new_record_offset as u16);
        set_u16(&mut self.bytes, SLOT_COUNT_OFFSET, (slot_count + 1) as u16);
        set_u16(&mut self.bytes, RECORD_OFFSET_OFFSET, new_record_offset as u16);
        let wo = OCCUPIED_OFFSET + 8 * (slot_count / 64);
        let w = get_u64(self.bytes.as_slice(), wo);
        set_u64(&mut self.bytes, wo, w | (1u64 << ((slot_count % 64) as u64)));
        Ok(slot_count)
    }

    pub fn get_slot(&self, index: usize) -> (r: Result<GraphStringSlot, NexoraGraphStringError>)
        requires
            self.inv(),
        ensures
            r == spec_get_slot(self@, index as int),
    {
        if index >= get_u16(self.bytes.as_slice(), SLOT_COUNT_OFFSET) as usize || index >= STRING_PAGE_BUFFER_SIZE / STRING_PAGE_SLOT_SIZE {
            return Err(NexoraGraphStringError::SlotNotFound);
        }
        let o = STRING_PAGE_BUFFER_OFFSET + index * STRING_PAGE_SLOT_SIZE;
        let b = self.bytes.as_slice();
        Ok(GraphStringSlot {
            overflow_slot: PackedPtr(get_u64(b, o)),
            total_length: get_u16(b, o + 8),
            chunk_length: get_u16(b, o + 10),
            offset: get_u16(b, o + 12),
        })
    }

    /// Marks slot `index` free.
    pub fn delete_slot(&mut self, index: usize)
        requires
            old(self).inv(),
            index < 256,
        ensures
            final(self).inv(),
            final(self)@ == put_u64(
                old(self)@,
                occupied_word_offset(index as int),
                read_u64(old(self)@, occupied_word_offset(index as int)) & !(1u64 << ((index % 64) as u64)),
            ),
    {
        let wo = OCCUPIED_OFFSET + 8 * (index / 64);
        let w = get_u64(self.bytes.as_slice(), wo);
        set_u64(&mut self.bytes, wo, w & !(1u64 << ((index % 64) as u64)));
    }

    pub fn available_data(&self) -> (r: usize)
        requires
            self.inv(),
        ensures
            r == spec_available_data(self@),
    {
        let slot_count = get_u16(self.bytes.as_slice(), SLOT_COUNT_OFFSET) as usize;
        let record_offset = get_u16(self.bytes.as_slice(), RECORD_OFFSET_OFFSET) as usize;
        let next_slot_end = (slot_count + 1) * STRING_PAGE_SLOT_SIZE;
        if record_offset >= next_slot_end { record_offset - next_slot_end } else { 0 }
    }

    pub fn has_space(&self, data_len: usize) -> (r: bool)
        requires
            self.inv(),
        ensures
            r == (spec_available_data(self@) >= data_len),
    {
        self.available_data() >= data_len
    }

    /// Copies `len` string bytes from buffer offset `offset` into `out`,
    /// starting at `out_start`.
    pub fn read_data(&self, offset: u16, len: u16, out: &mut [u8], out_start: usize) -> (r: Result<(), NexoraGraphStringError>)
        requires
            self.inv(),
            out_start + len <= old(out)@.len(),
        ensures
            final(out)@.len() == old(out)@.len(),
            if offset as int + len as int > STRING_PAGE_BUFFER_SIZE {
                r == Err::<(), NexoraGraphStringError>(NexoraGraphStringError::SlotNotFound) && final(out)@ == old(out)@
            } else {
                &&& r == Ok::<(), NexoraGraphStringError>(())
                &&& final(out)@ == put_bytes(
                    old(out)@,
                    out_start as int,
                    self@.subrange(STRING_PAGE_BUFFER_OFFSET + offset as int, STRING_PAGE_BUFFER_OFFSET + offset as int + len as int),
                )
            },
    {
        let start = offset as usize;
        let end = start + len as usize;
        if end > STRING_PAGE_BUFFER_SIZE {
            return Err(NexoraGraphStringError::SlotNotFound);
        }
        let n = out.len();
        let mut i: usize = 0;
        while i < len as usize
            invariant
                self.inv(),
                n == out@.len(),
                end == start + len,
                end <= STRING_PAGE_BUFFER_SIZE,
                out_start + len <= old(out)@.len(),
                out@.len() == old(out)@.len(),
                i <= len,
                forall|j: int| 0 <= j < out@.len() ==> #[trigger] out@[j] == if out_start <= j < out_start + i {
                    self@[STRING_PAGE_BUFFER_OFFSET + start + (j - out_start)]
                } else {
                    old(out)@[j]
                },
            decreases len - i,
        {
            out[out_start + i] = self.bytes[STRING_PAGE_BUFFER_OFFSET + start + i];
            i = i + 1;
        }
        assert(out@ =~= put_bytes(
            old(out)@,
            out_start as int,
            self@.subrange(STRING_PAGE_BUFFER_OFFSET + offset as int, STRING_PAGE_BUFFER_OFFSET + offset as int + len as int),
        ));
        Ok(())
    }
}

} // verus!
