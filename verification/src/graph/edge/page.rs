//! Edge pages: edge records in slots tracked by an occupancy bitmask.
//!
//! Layout: `[page header 32 | occupied u64, record_count u8, 7 pad |
//! 63 records of 64 bytes | 16 pad]`. A record is `edge_id | weight bits |
//! src_node_id | dst_node_id | next_outgoing | next_incoming |
//! property_page_id` (all u64) `| label_id u32 | property_slot u16 | flags u8 | pad`.
use vstd::prelude::*;
use vstd::std_specs::bits::{u64_trailing_zeros, axiom_u64_trailing_zeros};

use crate::utils::codec::{
    group_codec, read_u8, read_u16, read_u32, read_u64, put_u8, put_u16, put_u32, put_u64, get_u8, get_u16, get_u32,
    get_u64, set_u8, set_u16, set_u32, set_u64,
};
use crate::utils::containers::bitsets::{word_bit, lemma_word_or, lemma_word_and_not};
use crate::storage::constants::{PAGE_HEADER_SIZE, PAGE_SIZE, SENTINEL_PAGE_ID};
use crate::storage::models::{NexoraPageHeader, PageType, page_type_code, view_page_header, put_page_header, zero_page};
use crate::storage::page_store::{checksum_ok, lemma_stamped_checksum_ok, stamped};
use crate::graph::edge::constants::{EDGE_PAGE_HEADER_SIZE, EDGE_RECORDS_OFFSET, EDGE_RECORD_SIZE, MAX_EDGE_RECORD_COUNT};
use crate::graph::edge::error::NexoraGraphEdgeError;
use crate::graph::record::types::{GraphRecordFlag, PackedPtr, RecordHeader, FLAG_ACTIVE, FLAG_DELETED, packed};

verus! {

broadcast use group_codec, axiom_u64_trailing_zeros;

/// The lowest set bit of `w` at or above `from`, if any.
pub open spec fn lowest_set_from(w: u64, from: int) -> Option<int>
    decreases 64 - from,
{
    if from >= 64 || from < 0 {
        None
    } else if word_bit(w, from as u64) {
        Some(from)
    } else {
        lowest_set_from(w, from + 1)
    }
}

/// `w` with bits below `from` cleared.
pub proof fn lemma_mask_below(w: u64, from: u64)
    requires
        from < 64,
    ensures
        forall|j: u64| j < 64 ==> #[trigger] word_bit(w & !(((1u64 << from) - 1) as u64), j) == (word_bit(w, j) && j >= from),
{
    assert forall|j: u64| j < 64 implies #[trigger] word_bit(w & !(((1u64 << from) - 1) as u64), j) == (word_bit(w, j) && j >= from) by {
        assert((((w & !(((1u64 << from) - 1) as u64)) >> j) & 1u64 == 1u64) == (((w >> j) & 1u64 == 1u64) && j >= from)) by (bit_vector)
            requires
                from < 64,
                j < 64,
        ;
    }
}

/// Clearing the lowest set bit.
pub proof fn lemma_clear_lowest(b: u64)
    requires
        b != 0,
    ensures
        forall|j: u64| j < 64 ==> #[trigger] word_bit(b & ((b - 1) as u64), j) == (word_bit(b, j) && j != u64_trailing_zeros(b)),
{
    let t = u64_trailing_zeros(b) as u64;
    assert(t < 64);
    assert(b << ((64 - t) as u64) == 0);
    assert forall|j: u64| j < 64 implies #[trigger] word_bit(b & ((b - 1) as u64), j) == (word_bit(b, j) && j != t) by {
        assert(((b & ((b - 1) as u64)) >> j) & 1u64 == 1u64 <==> (((b >> j) & 1u64 == 1u64) && j != t)) by (bit_vector)
            requires
                b != 0,
                t < 64,
                j < 64,
                (b >> t) & 1u64 == 1u64,
                b << ((64 - t) as u64) == 0,
        ;
    }
}

/// The trailing zero count of a word is its lowest set bit.
pub proof fn lemma_trailing_zeros_lowest(w: u64)
    ensures
        w != 0 ==> lowest_set_from(w, 0) == Some(u64_trailing_zeros(w) as int),
        w == 0 ==> lowest_set_from(w, 0) is None,
{
    lemma_lowest_from_tz(w, 0);
}

proof fn lemma_lowest_from_tz(w: u64, from: int)
    requires
        0 <= from <= 64,
        forall|j: u64| j < from ==> !#[trigger] word_bit(w, j),
    ensures
        w != 0 ==> lowest_set_from(w, from) == Some(u64_trailing_zeros(w) as int),
        w == 0 ==> lowest_set_from(w, from) is None,
    decreases 64 - from,
{
    let t = u64_trailing_zeros(w);
    if w == 0 {
        if from < 64 {
            assert(forall|j: u64| #[trigger] ((0u64 >> j) & 1u64) == 0u64) by (bit_vector);
            assert(!word_bit(w, from as u64));
            lemma_lowest_from_tz(w, from + 1);
        }
    } else {
        assert(word_bit(w, t as u64));
        if from < t {
            assert(!word_bit(w, from as u64));
            lemma_lowest_from_tz(w, from + 1);
        } else if from > t {
            assert(!word_bit(w, t as u64));
        }
    }
}

/// The trailing zero count of `w` with the bits below `from` cleared is the
/// lowest set bit at or above `from`.
pub proof fn lemma_lowest_set_from_masked(w: u64, m: u64, from: int)
    requires
        0 <= from < 64,
        forall|j: u64| j < 64 ==> #[trigger] word_bit(m, j) == (word_bit(w, j) && j >= from),
    ensures
        m != 0 ==> lowest_set_from(w, from) == Some(u64_trailing_zeros(m) as int),
        m == 0 ==> lowest_set_from(w, from) is None,
{
    lemma_trailing_zeros_lowest(m);
    lemma_lowest_same(w, m, from, 0);
}

proof fn lemma_lowest_same(w: u64, m: u64, from: int, k: int)
    requires
        0 <= from < 64,
        0 <= k <= from,
        forall|j: u64| j < 64 ==> #[trigger] word_bit(m, j) == (word_bit(w, j) && j >= from),
    ensures
        lowest_set_from(m, k) == lowest_set_from(w, from),
    decreases from - k,
{
    if k < from {
        assert(!word_bit(m, k as u64));
        lemma_lowest_same(w, m, from, k + 1);
    } else {
        lemma_lowest_eq(w, m, from);
    }
}

proof fn lemma_lowest_eq(w: u64, m: u64, k: int)
    requires
        0 <= k <= 64,
        forall|j: u64| k <= j < 64 ==> #[trigger] word_bit(m, j) == word_bit(w, j),
    ensures
        lowest_set_from(m, k) == lowest_set_from(w, k),
    decreases 64 - k,
{
    if k < 64 {
        assert(word_bit(m, k as u64) == word_bit(w, k as u64));
        lemma_lowest_eq(w, m, k + 1);
    }
}

/// What `lowest_set_from` finds is set, and nothing between `from` and it is.
pub proof fn lemma_lowest_set_at(w: u64, from: int)
    requires
        0 <= from,
    ensures
        match lowest_set_from(w, from) {
            Some(t) => from <= t < 64 && word_bit(w, t as u64) && forall|j: u64| from <= j < t ==> !#[trigger] word_bit(w, j),
            None => forall|j: u64| from <= j < 64 ==> !#[trigger] word_bit(w, j),
        },
    decreases 64 - from,
{
    if from < 64 {
        lemma_lowest_set_at(w, from + 1);
    }
}

#[derive(Debug, Copy, Clone, PartialEq, Eq, Structural)]
pub struct GraphEdgePageHeader {
    pub occupied: u64,
    pub record_count: u8,
}

/// The slot `find_free_slot` hands out: the lowest freed slot below the
/// record count, else the next unused slot, else none.
pub open spec fn spec_find_free_slot(h: GraphEdgePageHeader) -> Option<usize> {
    let bounds: u64 = if h.record_count >= 64 { 0xffff_ffff_ffff_ffff } else { ((1u64 << h.record_count) - 1) as u64 };
    let deleted = !h.occupied & bounds;
    if deleted != 0 {
        Some(u64_trailing_zeros(deleted) as usize)
    } else if (h.record_count as usize) < MAX_EDGE_RECORD_COUNT {
        Some(h.record_count as usize)
    } else {
        None
    }
}

impl RecordHeader for GraphEdgePageHeader {
    fn get_next_record_offset(&self) -> (r: u64)
        ensures
            r == EDGE_RECORDS_OFFSET + self.record_count * EDGE_RECORD_SIZE,
    {
        (PAGE_HEADER_SIZE + EDGE_PAGE_HEADER_SIZE) as u64 + self.record_count as u64 * EDGE_RECORD_SIZE as u64
    }

    fn find_free_slot(&mut self) -> (r: Option<usize>)
        ensures
            *final(self) == *old(self),
            r == spec_find_free_slot(*old(self)),
    {
        let rc: u8 = self.record_count;
        let bounds_mask: u64 = if rc >= 64 {
            0xffff_ffff_ffff_ffff
        } else {
            assert(1u64 << rc >= 1) by (bit_vector)
                requires
                    rc < 64,
            ;
            (1u64 << rc) - 1
        };
        let deleted = !self.occupied & bounds_mask;
        if deleted != 0 {
            Some(deleted.trailing_zeros() as usize)
        } else if (self.record_count as usize) < MAX_EDGE_RECORD_COUNT {
            Some(self.record_count as usize)
        } else {
            None
        }
    }

    fn occupy_slot(&mut self, slot: usize)
        ensures
            final(self).occupied == if slot < 64 { old(self).occupied | (1u64 << slot as u64) } else { old(self).occupied },
            final(self).record_count == if slot == old(self).record_count && old(self).record_count < 255 {
                (old(self).record_count + 1) as u8
            } else {
                old(self).record_count
            },
    {
        if slot < 64 {
            self.occupied = self.occupied | (1u64 << slot as u64);
        }
        if slot == self.record_count as usize && self.record_count < 255 {
            self.record_count = self.record_count + 1;
        }
    }

    fn free_slot(&mut self, slot: usize)
        ensures
            final(self).occupied == if slot < 64 { old(self).occupied & !(1u64 << slot as u64) } else { old(self).occupied },
            final(self).record_count == old(self).record_count,
    {
        if slot < 64 {
            self.occupied = self.occupied & !(1u64 << slot as u64);
        }
    }
}

#[derive(Debug, Copy, Clone, PartialEq, Eq, Structural)]
pub struct GraphEdgeRecord {
    pub edge_id: u64,
    /// The IEEE-754 bits of the edge weight.
    pub weight_bits: u64,
    pub src_node_id: u64,
    pub dst_node_id: u64,
    pub next_outgoing: PackedPtr,
    pub next_incoming_address_packed: PackedPtr,
    pub property_page_id: u64,
    pub label_id: u32,
    pub property_slot: u16,
    pub flags: u8,
}

pub open spec fn edge_record_offset(slot: int) -> int {
    EDGE_RECORDS_OFFSET + EDGE_RECORD_SIZE * slot
}

pub open spec fn view_edge_record(s: Seq<u8>, o: int) -> GraphEdgeRecord {
    GraphEdgeRecord {
        edge_id: read_u64(s, o),
        weight_bits: read_u64(s, o + 8),
        src_node_id: read_u64(s, o + 16),
        dst_node_id: read_u64(s, o + 24),
        next_outgoing: PackedPtr(read_u64(s, o + 32)),
        next_incoming_address_packed: PackedPtr(read_u64(s, o + 40)),
        property_page_id: read_u64(s, o + 48),
        label_id: read_u32(s, o + 56),
        property_slot: read_u16(s, o + 60),
        flags: read_u8(s, o + 62),
    }
}

pub open spec fn put_edge_record(s: Seq<u8>, o: int, r: GraphEdgeRecord) -> Seq<u8> {
    put_u8(put_u16(put_u32(put_u64(put_u64(put_u64(put_u64(put_u64(put_u64(put_u64(s,
        o, r.edge_id), o + 8, r.weight_bits), o + 16, r.src_node_id), o + 24, r.dst_node_id),
        o + 32, r.next_outgoing.0), o + 40, r.next_incoming_address_packed.0), o + 48, r.property_page_id),
        o + 56, r.label_id), o + 60, r.property_slot), o + 62, r.flags)
}

pub open spec fn edge_record(s: Seq<u8>, slot: int) -> GraphEdgeRecord {
    view_edge_record(s, edge_record_offset(slot))
}

pub open spec fn view_edge_header(s: Seq<u8>) -> GraphEdgePageHeader {
    GraphEdgePageHeader { occupied: read_u64(s, 32), record_count: read_u8(s, 40) }
}

pub open spec fn edge_slot_occupied(s: Seq<u8>, slot: int) -> bool {
    word_bit(read_u64(s, 32), slot as u64)
}

/// The lowest occupied slot of page `s` whose record has id `edge_id`.
pub open spec fn spec_find_edge_slot(s: Seq<u8>, edge_id: u64) -> Option<int> {
    find_edge_slot_from(s, edge_id, 0)
}

pub open spec fn find_edge_slot_from(s: Seq<u8>, edge_id: u64, from: int) -> Option<int>
    decreases MAX_EDGE_RECORD_COUNT - from,
{
    if from >= MAX_EDGE_RECORD_COUNT || from < 0 {
        None
    } else if edge_slot_occupied(s, from) && edge_record(s, from).edge_id == edge_id {
        Some(from)
    } else {
        find_edge_slot_from(s, edge_id, from + 1)
    }
}

/// Slots in `[a, b)` that hold no live record with id `edge_id` do not change the search.
pub proof fn lemma_find_edge_skip(s: Seq<u8>, edge_id: u64, a: int, b: int)
    requires
        0 <= a <= b,
        forall|j: int| a <= j < b ==> !(#[trigger] edge_slot_occupied(s, j) && edge_record(s, j).edge_id == edge_id),
    ensures
        find_edge_slot_from(s, edge_id, a) == find_edge_slot_from(s, edge_id, b),
    decreases b - a,
{
    if a < b {
        assert(!(edge_slot_occupied(s, a) && edge_record(s, a).edge_id == edge_id));
        lemma_find_edge_skip(s, edge_id, a + 1, b);
    }
}

/// The search result is an occupied slot with the id, below which none has it.
pub proof fn lemma_find_edge_slot_found(s: Seq<u8>, edge_id: u64, from: int)
    requires
        0 <= from,
    ensures
        match find_edge_slot_from(s, edge_id, from) {
            Some(k) => from <= k < MAX_EDGE_RECORD_COUNT && edge_slot_occupied(s, k) && edge_record(s, k).edge_id == edge_id
                && forall|j: int| from <= j < k ==> !(#[trigger] edge_slot_occupied(s, j) && edge_record(s, j).edge_id == edge_id),
            None => forall|j: int| from <= j < MAX_EDGE_RECORD_COUNT ==> !(#[trigger] edge_slot_occupied(s, j) && edge_record(s, j).edge_id == edge_id),
        },
    decreases MAX_EDGE_RECORD_COUNT - from,
{
    if from < MAX_EDGE_RECORD_COUNT {
        lemma_find_edge_slot_found(s, edge_id, from + 1);
    }
}

pub open spec fn spec_page_get_edge(s: Seq<u8>, edge_id: u64) -> Option<GraphEdgeRecord> {
    match spec_find_edge_slot(s, edge_id) {
        None => None,
        Some(slot) => Some(edge_record(s, slot)),
    }
}

impl GraphEdgeRecord {
    pub fn new(
        edge_id: u64,
        src_node_id: u64,
        dst_node_id: u64,
        label_id: u32,
        weight_bits: u64,
        next_outgoing: PackedPtr,
        next_incoming: PackedPtr,
    ) -> (r: Self)
        ensures
            r == (GraphEdgeRecord {
                edge_id,
                weight_bits,
                src_node_id,
                dst_node_id,
                next_outgoing,
                next_incoming_address_packed: next_incoming,
                property_page_id: SENTINEL_PAGE_ID,
                label_id,
                property_slot: 0,
                flags: FLAG_ACTIVE,
            }),
    {
        GraphEdgeRecord {
            edge_id,
            weight_bits,
            src_node_id,
            dst_node_id,
            next_outgoing,
            next_incoming_address_packed: next_incoming,
            property_page_id: SENTINEL_PAGE_ID,
            label_id,
            property_slot: 0,
            flags: GraphRecordFlag::ACTIVE.to_u8(),
        }
    }

    pub fn edge_id(&self) -> (r: u64)
        ensures
            r == self.edge_id,
    {
        self.edge_id
    }

    pub fn src_node_id(&self) -> (r: u64)
        ensures
            r == self.src_node_id,
    {
        self.src_node_id
    }

    pub fn dst_node_id(&self) -> (r: u64)
        ensures
            r == self.dst_node_id,
    {
        self.dst_node_id
    }

    /// The IEEE-754 bits of the weight.
    pub fn weight(&self) -> (r: u64)
        ensures
            r == self.weight_bits,
    {
        self.weight_bits
    }

    pub fn label_id(&self) -> (r: u32)
        ensures
            r == self.label_id,
    {
        self.label_id
    }

    /// The head of the edge's property chain.
    pub fn properties(&self) -> (r: PackedPtr)
        ensures
            r.0 == packed(self.property_page_id, self.property_slot as u8),
    {
        PackedPtr::new(self.property_page_id, self.property_slot as u8)
    }

    pub fn set_properties(&mut self, ptr: PackedPtr)
        ensures
            *final(self) == (GraphEdgeRecord {
                property_page_id: crate::graph::record::types::ptr_page_id(ptr),
                property_slot: crate::graph::record::types::ptr_slot(ptr) as u16,
                ..*old(self)
            }),
    {
        self.property_page_id = ptr.page_id();
        self.property_slot = ptr.slot() as u16;
    }

    pub fn set_label_id(&mut self, label_id: u32)
        ensures
            *final(self) == (GraphEdgeRecord { label_id, ..*old(self) }),
    {
        self.label_id = label_id;
    }

    pub fn read_from(buf: &[u8], o: usize) -> (r: Self)
        requires
            o + EDGE_RECORD_SIZE <= buf@.len(),
        ensures
            r == view_edge_record(buf@, o as int),
    {
        let n = buf.len();
        assert(o + EDGE_RECORD_SIZE <= n);
        GraphEdgeRecord {
            edge_id: get_u64(buf, o),
            weight_bits: get_u64(buf, o + 8),
            src_node_id: get_u64(buf, o + 16),
            dst_node_id: get_u64(buf, o + 24),
            next_outgoing: PackedPtr(get_u64(buf, o + 32)),
            next_incoming_address_packed: PackedPtr(get_u64(buf, o + 40)),
            property_page_id: get_u64(buf, o + 48),
            label_id: get_u32(buf, o + 56),
            property_slot: get_u16(buf, o + 60),
            flags: get_u8(buf, o + 62),
        }
    }

    pub fn write_to(&self, buf: &mut Vec<u8>, o: usize)
        requires
            o + EDGE_RECORD_SIZE <= old(buf)@.len(),
        ensures
            final(buf)@ == put_edge_record(old(buf)@, o as int, *self),
    {
        let n = buf.len();
        assert(o + EDGE_RECORD_SIZE <= n);
        set_u64(buf, o, self.edge_id);
        set_u64(buf, o + 8, self.weight_bits);
        set_u64(buf, o + 16, self.src_node_id);
        set_u64(buf, o + 24, self.dst_node_id);
        set_u64(buf, o + 32, self.next_outgoing.0);
        set_u64(buf, o + 40, self.next_incoming_address_packed.0);
        set_u64(buf, o + 48, self.property_page_id);
        set_u32(buf, o + 56, self.label_id);
        set_u16(buf, o + 60, self.property_slot);
        set_u8(buf, o + 62, self.flags);
    }
}

/// A record read back after it is written in full.
pub proof fn lemma_put_edge_record(s: Seq<u8>, o: int, r: GraphEdgeRecord)
    requires
        0 <= o,
        o + EDGE_RECORD_SIZE <= s.len(),
    ensures
        put_edge_record(s, o, r).len() == s.len(),
        view_edge_record(put_edge_record(s, o, r), o) == r,
        forall|i: int| 0 <= i < s.len() && !(o <= i < o + EDGE_RECORD_SIZE) ==> #[trigger] put_edge_record(s, o, r)[i] == s[i],
{
}

/// What inserting `edge` into page `s` gives: its slot and the page after.
pub open spec fn spec_page_insert_edge(s: Seq<u8>, edge: GraphEdgeRecord) -> Result<(usize, Seq<u8>), NexoraGraphEdgeError> {
    let h = view_edge_header(s);
    match spec_find_free_slot(h) {
        None => Err(NexoraGraphEdgeError::NoFreeSlot),
        Some(slot) => if slot >= MAX_EDGE_RECORD_COUNT {
            Err(NexoraGraphEdgeError::NoFreeSlot)
        } else {
            let s1 = put_edge_record(s, edge_record_offset(slot as int), GraphEdgeRecord { flags: FLAG_ACTIVE, ..edge });
            let s2 = put_u64(s1, 32, h.occupied | (1u64 << slot as u64));
            Ok((slot, if slot == h.record_count && h.record_count < 255 { put_u8(s2, 40, (h.record_count + 1) as u8) } else { s2 }))
        },
    }
}

/// A search from `from` agrees on two pages with the same occupied slots
/// and the same records.
proof fn lemma_find_edge_from_same(s: Seq<u8>, t: Seq<u8>, edge_id: u64, from: int)
    requires
        0 <= from,
        read_u64(s, 32) == read_u64(t, 32),
        forall|j: int| 0 <= j < MAX_EDGE_RECORD_COUNT ==> #[trigger] edge_record(s, j) == edge_record(t, j),
    ensures
        find_edge_slot_from(s, edge_id, from) == find_edge_slot_from(t, edge_id, from),
    decreases MAX_EDGE_RECORD_COUNT - from,
{
    if from < MAX_EDGE_RECORD_COUNT {
        assert(edge_record(s, from) == edge_record(t, from));
        lemma_find_edge_from_same(s, t, edge_id, from + 1);
    }
}

/// A search from `from` agrees on two pages with the same occupied slots
/// and the same record ids.
pub proof fn lemma_find_edge_from_same_ids(s: Seq<u8>, t: Seq<u8>, edge_id: u64, from: int)
    requires
        0 <= from,
        read_u64(s, 32) == read_u64(t, 32),
        forall|j: int| 0 <= j < MAX_EDGE_RECORD_COUNT ==> #[trigger] edge_record(s, j).edge_id == edge_record(t, j).edge_id,
    ensures
        find_edge_slot_from(s, edge_id, from) == find_edge_slot_from(t, edge_id, from),
    decreases MAX_EDGE_RECORD_COUNT - from,
{
    if from < MAX_EDGE_RECORD_COUNT {
        assert(edge_record(s, from).edge_id == edge_record(t, from).edge_id);
        lemma_find_edge_from_same_ids(s, t, edge_id, from + 1);
    }
}

/// Two edge pages that agree from the edge header on hold the same records
/// and find the same ones.
pub proof fn lemma_edge_page_same_tail(s: Seq<u8>, t: Seq<u8>)
    requires
        s.len() == PAGE_SIZE,
        t.len() == PAGE_SIZE,
        forall|k: int| 32 <= k < PAGE_SIZE ==> #[trigger] s[k] == t[k],
    ensures
        view_edge_header(s) == view_edge_header(t),
        forall|j: int| 0 <= j < MAX_EDGE_RECORD_COUNT ==> #[trigger] edge_record(s, j) == edge_record(t, j),
        forall|id: u64| #[trigger] spec_find_edge_slot(s, id) == spec_find_edge_slot(t, id),
{
    assert(s.subrange(32, 40) =~= t.subrange(32, 40));
    assert forall|j: int| 0 <= j < MAX_EDGE_RECORD_COUNT implies #[trigger] edge_record(s, j) == edge_record(t, j) by {
        let o = edge_record_offset(j);
        assert(s.subrange(o, o + 8) =~= t.subrange(o, o + 8));
        assert(s.subrange(o + 8, o + 16) =~= t.subrange(o + 8, o + 16));
        assert(s.subrange(o + 16, o + 24) =~= t.subrange(o + 16, o + 24));
        assert(s.subrange(o + 24, o + 32) =~= t.subrange(o + 24, o + 32));
        assert(s.subrange(o + 32, o + 40) =~= t.subrange(o + 32, o + 40));
        assert(s.subrange(o + 40, o + 48) =~= t.subrange(o + 40, o + 48));
        assert(s.subrange(o + 48, o + 56) =~= t.subrange(o + 48, o + 56));
        assert(s.subrange(o + 56, o + 60) =~= t.subrange(o + 56, o + 60));
        assert(s.subrange(o + 60, o + 62) =~= t.subrange(o + 60, o + 62));
    }
    assert forall|id: u64| #[trigger] spec_find_edge_slot(s, id) == spec_find_edge_slot(t, id) by {
        lemma_find_edge_from_same(s, t, id, 0);
    }
}

/// A page with no occupied slot holds no edge.
pub proof fn lemma_find_edge_none_empty(s: Seq<u8>, edge_id: u64, from: int)
    requires
        0 <= from,
        read_u64(s, 32) == 0,
    ensures
        find_edge_slot_from(s, edge_id, from) is None,
    decreases MAX_EDGE_RECORD_COUNT - from,
{
    if from < MAX_EDGE_RECORD_COUNT {
        let j = from as u64;
        assert(word_bit(0u64, j) == false) by (bit_vector)
            requires
                j < 64,
        ;
        lemma_find_edge_none_empty(s, edge_id, from + 1);
    }
}

/// A record stored in a page that held no live record with its id is the
/// one found for that id afterwards, in the slot it got; the page header
/// before the edge header stays.
pub proof fn lemma_page_insert_edge_found(s: Seq<u8>, edge: GraphEdgeRecord)
    requires
        s.len() == PAGE_SIZE,
        spec_page_insert_edge(s, edge) is Ok,
        spec_find_edge_slot(s, edge.edge_id) is None,
    ensures
        ({
            let (slot, s2) = spec_page_insert_edge(s, edge)->Ok_0;
            &&& s2.len() == PAGE_SIZE
            &&& slot < MAX_EDGE_RECORD_COUNT
            &&& spec_find_edge_slot(s2, edge.edge_id) == Some(slot as int)
            &&& edge_record(s2, slot as int) == (GraphEdgeRecord { flags: FLAG_ACTIVE, ..edge })
            &&& forall|k: int| 0 <= k < 32 ==> #[trigger] s2[k] == s[k]
        }),
{
    let h = view_edge_header(s);
    let (slot, s2) = spec_page_insert_edge(s, edge)->Ok_0;
    let o = edge_record_offset(slot as int);
    let r = GraphEdgeRecord { flags: FLAG_ACTIVE, ..edge };
    let s1 = put_edge_record(s, o, r);
    let s3 = put_u64(s1, 32, h.occupied | (1u64 << slot as u64));
    lemma_put_edge_record(s, o, r);
    lemma_word_or(h.occupied, slot as u64);
    assert(read_u64(s2, 32) == h.occupied | (1u64 << slot as u64));
    lemma_find_edge_slot_found(s, edge.edge_id, 0);
    assert forall|j: int| 0 <= j < slot implies !(#[trigger] edge_slot_occupied(s2, j) && edge_record(s2, j).edge_id == edge.edge_id) by {
        let oj = edge_record_offset(j);
        assert(s2.subrange(oj, oj + 8) =~= s.subrange(oj, oj + 8));
        assert(edge_slot_occupied(s2, j) == edge_slot_occupied(s, j));
    }
    lemma_find_edge_skip(s2, edge.edge_id, 0, slot as int);
    assert(s2.subrange(o, o + 8) =~= s1.subrange(o, o + 8));
    assert(s2.subrange(o + 8, o + 16) =~= s1.subrange(o + 8, o + 16));
    assert(s2.subrange(o + 16, o + 24) =~= s1.subrange(o + 16, o + 24));
    assert(s2.subrange(o + 24, o + 32) =~= s1.subrange(o + 24, o + 32));
    assert(s2.subrange(o + 32, o + 40) =~= s1.subrange(o + 32, o + 40));
    assert(s2.subrange(o + 40, o + 48) =~= s1.subrange(o + 40, o + 48));
    assert(s2.subrange(o + 48, o + 56) =~= s1.subrange(o + 48, o + 56));
    assert(s2.subrange(o + 56, o + 60) =~= s1.subrange(o + 56, o + 60));
    assert(s2.subrange(o + 60, o + 62) =~= s1.subrange(o + 60, o + 62));
    assert(s2[o + 62] == s1[o + 62]);
    assert(edge_record(s2, slot as int) == edge_record(s1, slot as int));
    assert(edge_slot_occupied(s2, slot as int));
}

/// Tombstoning the one live record with id `edge_id` in a page, and
/// stamping the page, leaves no live record with that id, and keeps the
/// next page, every record id and every link.
pub proof fn lemma_delete_slot_unfinds(s: Seq<u8>, k: int, edge_id: u64)
    requires
        s.len() == PAGE_SIZE,
        0 <= k < MAX_EDGE_RECORD_COUNT,
        forall|j: int| 0 <= j < MAX_EDGE_RECORD_COUNT && #[trigger] edge_slot_occupied(s, j) && edge_record(s, j).edge_id == edge_id ==> j == k,
    ensures
        ({
            let t = stamped(spec_page_delete_slot(s, k));
            &&& checksum_ok(t)
            &&& t.len() == PAGE_SIZE
            &&& view_page_header(t).next_page_id == view_page_header(s).next_page_id
            &&& spec_find_edge_slot(t, edge_id) is None
            &&& forall|j: int| 0 <= j < MAX_EDGE_RECORD_COUNT ==> {
                &&& (#[trigger] edge_record(t, j)).edge_id == edge_record(s, j).edge_id
                &&& edge_record(t, j).next_outgoing == edge_record(s, j).next_outgoing
                &&& edge_record(t, j).next_incoming_address_packed == edge_record(s, j).next_incoming_address_packed
            }
        }),
{
    let d = spec_page_delete_slot(s, k);
    let t = stamped(d);
    let s1 = put_u8(s, edge_record_offset(k) + 62, FLAG_DELETED);
    lemma_stamped_checksum_ok(d);
    lemma_edge_page_same_tail(d, t);
    assert(t.subrange(8, 16) =~= s.subrange(8, 16));
    let w = read_u64(s1, 32);
    lemma_word_and_not(w, k as u64);
    assert(s1.subrange(32, 40) =~= s.subrange(32, 40));
    assert forall|j: int| 0 <= j < MAX_EDGE_RECORD_COUNT implies {
        &&& (#[trigger] edge_record(d, j)).edge_id == edge_record(s, j).edge_id
        &&& edge_record(d, j).next_outgoing == edge_record(s, j).next_outgoing
        &&& edge_record(d, j).next_incoming_address_packed == edge_record(s, j).next_incoming_address_packed
    } by {
        let oj = edge_record_offset(j);
        assert(d.subrange(oj, oj + 8) =~= s.subrange(oj, oj + 8));
        assert(d.subrange(oj + 32, oj + 40) =~= s.subrange(oj + 32, oj + 40));
        assert(d.subrange(oj + 40, oj + 48) =~= s.subrange(oj + 40, oj + 48));
    }
    assert forall|j: int| 0 <= j < MAX_EDGE_RECORD_COUNT implies !(#[trigger] edge_slot_occupied(t, j) && edge_record(t, j).edge_id == edge_id) by {
        assert(edge_record(d, j).edge_id == edge_record(s, j).edge_id);
        assert(edge_slot_occupied(t, j) == (edge_slot_occupied(s, j) && j != k));
    }
    lemma_find_edge_skip(t, edge_id, 0, MAX_EDGE_RECORD_COUNT as int);
}

/// Setting one link of one record (`field` 32 for the outgoing list, 40 for
/// the incoming one), and stamping the page, keeps the next page, the live
/// records, every record id and every other link.
pub proof fn lemma_link_write_keeps(s: Seq<u8>, slot: int, field: int, v: u64)
    requires
        s.len() == PAGE_SIZE,
        0 <= slot < MAX_EDGE_RECORD_COUNT,
        field == 32 || field == 40,
    ensures
        ({
            let t = stamped(put_u64(s, edge_record_offset(slot) + field, v));
            &&& checksum_ok(t)
            &&& t.len() == PAGE_SIZE
            &&& view_page_header(t).next_page_id == view_page_header(s).next_page_id
            &&& forall|id: u64| #[trigger] spec_find_edge_slot(t, id) == spec_find_edge_slot(s, id)
            &&& forall|j: int| 0 <= j < MAX_EDGE_RECORD_COUNT ==> {
                &&& (#[trigger] edge_record(t, j)).edge_id == edge_record(s, j).edge_id
                &&& edge_record(t, j).next_outgoing == if j == slot && field == 32 {
                    PackedPtr(v)
                } else {
                    edge_record(s, j).next_outgoing
                }
                &&& edge_record(t, j).next_incoming_address_packed == if j == slot && field == 40 {
                    PackedPtr(v)
                } else {
                    edge_record(s, j).next_incoming_address_packed
                }
            }
        }),
{
    let w = put_u64(s, edge_record_offset(slot) + field, v);
    let t = stamped(w);
    lemma_stamped_checksum_ok(w);
    lemma_edge_page_same_tail(w, t);
    assert(t.subrange(8, 16) =~= s.subrange(8, 16));
    assert(w.subrange(32, 40) =~= s.subrange(32, 40));
    assert forall|j: int| 0 <= j < MAX_EDGE_RECORD_COUNT implies {
        &&& (#[trigger] edge_record(w, j)).edge_id == edge_record(s, j).edge_id
        &&& edge_record(w, j).next_outgoing == if j == slot && field == 32 {
            PackedPtr(v)
        } else {
            edge_record(s, j).next_outgoing
        }
        &&& edge_record(w, j).next_incoming_address_packed == if j == slot && field == 40 {
            PackedPtr(v)
        } else {
            edge_record(s, j).next_incoming_address_packed
        }
    } by {
        let oj = edge_record_offset(j);
        assert(w.subrange(oj, oj + 8) =~= s.subrange(oj, oj + 8));
        if !(j == slot && field == 32) {
            assert(w.subrange(oj + 32, oj + 40) =~= s.subrange(oj + 32, oj + 40));
        }
        if !(j == slot && field == 40) {
            assert(w.subrange(oj + 40, oj + 48) =~= s.subrange(oj + 40, oj + 48));
        }
    }
    assert forall|id: u64| #[trigger] spec_find_edge_slot(t, id) == spec_find_edge_slot(s, id) by {
        lemma_find_edge_from_same_ids(s, w, id, 0);
        assert(spec_find_edge_slot(w, id) == spec_find_edge_slot(s, id));
        assert(spec_find_edge_slot(w, id) == spec_find_edge_slot(t, id));
    }
}

/// Page `s` with slot `slot` tombstoned and freed.
pub open spec fn spec_page_delete_slot(s: Seq<u8>, slot: int) -> Seq<u8> {
    let s1 = put_u8(s, edge_record_offset(slot) + 62, FLAG_DELETED);
    put_u64(s1, 32, read_u64(s1, 32) & !(1u64 << slot as u64))
}

/// The bytes of page `s` after `init(page_id, next)`.
pub open spec fn spec_edge_page_init(s: Seq<u8>, page_id: u64, next_page_id: u64) -> Seq<u8> {
    put_u8(
        put_u64(
            put_page_header(
                s,
                NexoraPageHeader {
                    page_id,
                    next_page_id,
                    prev_page_id: SENTINEL_PAGE_ID,
                    checksum: 0,
                    page_type: page_type_code(PageType::Edge),
                    ..view_page_header(s)
                },
            ),
            32,
            0,
        ),
        40,
        0,
    )
}

/// An edge page, kept as its bytes.
pub struct GraphEdgePage {
    bytes: Vec<u8>,
}

impl View for GraphEdgePage {
    type V = Seq<u8>;

    closed spec fn view(&self) -> Seq<u8> {
        self.bytes@
    }
}

impl GraphEdgePage {
    pub open spec fn inv(&self) -> bool {
        self@.len() == PAGE_SIZE
    }

    pub fn from_bytes(bytes: Vec<u8>) -> (r: Self)
        requires
            bytes@.len() == PAGE_SIZE,
        ensures
            r@ == bytes@,
            r.inv(),
    {
        GraphEdgePage { bytes }
    }

    pub fn zeroed() -> (r: Self)
        ensures
            r@ == Seq::new(PAGE_SIZE as nat, |i: int| 0u8),
            r.inv(),
    {
        let bytes = zero_page();
        assert(bytes@ =~= Seq::new(PAGE_SIZE as nat, |i: int| 0u8));
        GraphEdgePage { bytes }
    }

    pub fn as_bytes(&self) -> (r: &[u8])
        ensures
            r@ == self@,
    {
        self.bytes.as_slice()
    }

    pub fn page_header(&self) -> (r: NexoraPageHeader)
        requires
            self.inv(),
        ensures
            r == view_page_header(self@),
    {
        NexoraPageHeader::read_from(self.bytes.as_slice())
    }

    pub fn graph_page_header(&self) -> (r: GraphEdgePageHeader)
        requires
            self.inv(),
        ensures
            r == view_edge_header(self@),
    {
        GraphEdgePageHeader { occupied: get_u64(self.bytes.as_slice(), 32), record_count: get_u8(self.bytes.as_slice(), 40) }
    }

    pub fn record(&self, slot: usize) -> (r: GraphEdgeRecord)
        requires
            self.inv(),
            slot < MAX_EDGE_RECORD_COUNT,
        ensures
            r == edge_record(self@, slot as int),
    {
        GraphEdgeRecord::read_from(self.bytes.as_slice(), EDGE_RECORDS_OFFSET + EDGE_RECORD_SIZE * slot)
    }

    /// Writes the `u64` field at offset `field` of record `slot`.
    pub fn set_record_u64(&mut self, slot: usize, field: usize, v: u64)
        requires
            old(self).inv(),
            slot < MAX_EDGE_RECORD_COUNT,
            field + 8 <= EDGE_RECORD_SIZE,
        ensures
            final(self)@ == put_u64(old(self)@, edge_record_offset(slot as int) + field, v),
            final(self).inv(),
    {
        set_u64(&mut self.bytes, EDGE_RECORDS_OFFSET + EDGE_RECORD_SIZE * slot + field, v);
    }

    /// Points record `slot` at the property chain that starts at `ptr`.
    pub fn set_record_properties(&mut self, slot: usize, ptr: PackedPtr)
        requires
            old(self).inv(),
            slot < MAX_EDGE_RECORD_COUNT,
        ensures
            final(self)@ == put_u16(
                put_u64(old(self)@, edge_record_offset(slot as int) + 48, crate::graph::record::types::ptr_page_id(ptr)),
                edge_record_offset(slot as int) + 60,
                crate::graph::record::types::ptr_slot(ptr) as u16,
            ),
            final(self).inv(),
    {
        let o = EDGE_RECORDS_OFFSET + EDGE_RECORD_SIZE * slot;
        set_u64(&mut self.bytes, o + 48, ptr.page_id());
        set_u16(&mut self.bytes, o + 60, ptr.slot() as u16);
    }

    /// Sets the label id and the weight bits of record `slot`.
    pub fn set_record_label_and_weight(&mut self, slot: usize, label_id: u32, weight_bits: u64)
        requires
            old(self).inv(),
            slot < MAX_EDGE_RECORD_COUNT,
        ensures
            final(self)@ == put_u64(
                put_u32(old(self)@, edge_record_offset(slot as int) + 56, label_id),
                edge_record_offset(slot as int) + 8,
                weight_bits,
            ),
            final(self).inv(),
    {
        let o = EDGE_RECORDS_OFFSET + EDGE_RECORD_SIZE * slot;
        set_u32(&mut self.bytes, o + 56, label_id);
        set_u64(&mut self.bytes, o + 8, weight_bits);
    }

    pub fn init(&mut self, page_id: u64, next_page_id: u64)
        requires
            old(self).inv(),
        ensures
            final(self)@ == spec_edge_page_init(old(self)@, page_id, next_page_id),
            final(self).inv(),
    {
        let mut h = NexoraPageHeader::read_from(self.bytes.as_slice());
        h.page_id = page_id;
        h.page_type = PageType::Edge.to_u8();
        h.next_page_id = next_page_id;
        h.prev_page_id = SENTINEL_PAGE_ID;
        h.checksum = 0;
        h.write_to(&mut self.bytes);
        set_u64(&mut self.bytes, 32, 0);
        set_u8(&mut self.bytes, 40, 0);
    }

    /// The lowest live slot whose record has id `edge_id`, walking the set
    /// bits of the occupancy mask from the lowest up.
    pub fn find_edge_slot(&self, edge_id: u64) -> (r: Option<usize>)
        requires
            self.inv(),
        ensures
            match spec_find_edge_slot(self@, edge_id) {
                Some(k) => r == Some(k as usize),
                None => r is None,
            },
            r matches Some(k) ==> k < MAX_EDGE_RECORD_COUNT,
            spec_find_edge_slot(self@, edge_id) matches Some(k) ==> 0 <= k < MAX_EDGE_RECORD_COUNT,
    {
        proof {
            lemma_find_edge_slot_found(self@, edge_id, 0);
        }
        let occ = get_u64(self.bytes.as_slice(), 32);
        let mut bits = occ;
        let ghost mut lo: int = 0;
        proof {
            assert forall|j: u64| j < 64 implies #[trigger] word_bit(bits, j) == (word_bit(occ, j) && j >= lo) by {}
        }
        while bits != 0
            invariant
                self.inv(),
                occ == read_u64(self@, 32),
                0 <= lo < 64,
                forall|j: u64| j < 64 ==> #[trigger] word_bit(bits, j) == (word_bit(occ, j) && j >= lo),
                find_edge_slot_from(self@, edge_id, 0) == find_edge_slot_from(self@, edge_id, lo),
            decreases 64 - lo,
        {
            let t = bits.trailing_zeros();
            proof {
                lemma_lowest_set_from_masked(occ, bits, lo);
                lemma_lowest_set_at(occ, lo);
                lemma_find_edge_skip(self@, edge_id, lo, t as int);
            }
            if t as usize >= MAX_EDGE_RECORD_COUNT {
                proof {
                    assert(find_edge_slot_from(self@, edge_id, t as int) is None);
                }
                return None;
            }
            let rec = self.record(t as usize);
            if rec.edge_id == edge_id {
                return Some(t as usize);
            }
            proof {
                lemma_clear_lowest(bits);
                assert(find_edge_slot_from(self@, edge_id, t as int) == find_edge_slot_from(self@, edge_id, t + 1));
            }
            bits = bits & (bits - 1);
            proof {
                let tt = t as int;
                assert forall|j: u64| j < 64 implies #[trigger] word_bit(bits, j) == (word_bit(occ, j) && j >= tt + 1) by {
                    if lo <= j < tt {
                        assert(!word_bit(occ, j));
                    }
                }
                lo = tt + 1;
            }
        }
        proof {
            assert forall|j: int| lo <= j < MAX_EDGE_RECORD_COUNT implies !(#[trigger] edge_slot_occupied(self@, j) && edge_record(self@, j).edge_id == edge_id) by {
                assert(word_bit(bits, j as u64) == (word_bit(occ, j as u64) && j >= lo));
                assert(bits == 0u64);
                assert(forall|k: u64| #[trigger] ((0u64 >> k) & 1u64) == 0u64) by (bit_vector);
            }
            lemma_find_edge_skip(self@, edge_id, lo, MAX_EDGE_RECORD_COUNT as int);
        }
        None
    }

    /// The live record with id `edge_id`, if the page holds one.
    pub fn get_edge(&self, edge_id: u64) -> (r: Option<GraphEdgeRecord>)
        requires
            self.inv(),
        ensures
            r == spec_page_get_edge(self@, edge_id),
    {
        match self.find_edge_slot(edge_id) {
            Some(slot) => Some(self.record(slot)),
            None => None,
        }
    }

    /// Tombstones slot `slot` and clears its occupancy bit.
    pub fn delete_slot(&mut self, slot: usize)
        requires
            old(self).inv(),
            slot < MAX_EDGE_RECORD_COUNT,
        ensures
            final(self)@ == spec_page_delete_slot(old(self)@, slot as int),
            final(self).inv(),
    {
        set_u8(&mut self.bytes, EDGE_RECORDS_OFFSET + EDGE_RECORD_SIZE * slot + 62, GraphRecordFlag::DELETED.to_u8());
        let mut h = self.graph_page_header();
        h.free_slot(slot);
        set_u64(&mut self.bytes, 32, h.occupied);
    }

    /// Deletes the live record with id `edge_id`.
    pub fn delete_edge(&mut self, edge_id: u64) -> (r: Result<(), NexoraGraphEdgeError>)
        requires
            old(self).inv(),
        ensures
            final(self).inv(),
            match spec_find_edge_slot(old(self)@, edge_id) {
                Some(k) => r == Ok::<(), NexoraGraphEdgeError>(()) && final(self)@ == spec_page_delete_slot(old(self)@, k),
                None => r == Err::<(), NexoraGraphEdgeError>(NexoraGraphEdgeError::EdgeNotFound) && final(self)@ == old(self)@,
            },
    {
        match self.find_edge_slot(edge_id) {
            Some(slot) => {
                self.delete_slot(slot);
                Ok(())
            },
            None => Err(NexoraGraphEdgeError::EdgeNotFound),
        }
    }

    /// Stores `edge` in a free slot; returns the slot.
    pub fn insert_edge(&mut self, edge: GraphEdgeRecord) -> (r: Result<usize, NexoraGraphEdgeError>)
        requires
            old(self).inv(),
        ensures
            final(self).inv(),
            match spec_page_insert_edge(old(self)@, edge) {
                Err(e) => r == Err::<usize, NexoraGraphEdgeError>(e) && final(self)@ == old(self)@,
                Ok((slot, s)) => r == Ok::<usize, NexoraGraphEdgeError>(slot) && final(self)@ == s,
            },
    {
        let mut h = self.graph_page_header();
        let slot = match h.find_free_slot() {
            Some(s) => s,
            None => return Err(NexoraGraphEdgeError::NoFreeSlot),
        };
        if slot >= MAX_EDGE_RECORD_COUNT {
            return Err(NexoraGraphEdgeError::NoFreeSlot);
        }
        let mut e = edge;
        e.flags = GraphRecordFlag::ACTIVE.to_u8();
        e.write_to(&mut self.bytes, EDGE_RECORDS_OFFSET + EDGE_RECORD_SIZE * slot);
        h.occupy_slot(slot);
        set_u64(&mut self.bytes, 32, h.occupied);
        if h.record_count != get_u8(self.bytes.as_slice(), 40) {
            set_u8(&mut self.bytes, 40, h.record_count);
        }
        Ok(slot)
    }
}

} // verus!
