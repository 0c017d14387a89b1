//! Strings of up to 65535 bytes, split into chunks over string pages.
//!
//! A string is stored from its end: the last chunk first, each earlier chunk
//! pointing to the next through its slot's `overflow_slot`. The pointer
//! returned is the first chunk's slot, which alone carries the total length.
use vstd::prelude::*;

use crate::utils::codec::{group_codec, put_bytes, read_u16, read_u64, put_u16, put_u64};
use crate::storage::constants::{PAGE_SIZE, SENTINEL_PAGE_ID};
use crate::storage::error::NexoraStorageError;
use crate::storage::models::{
    NexoraFooter, NexoraPageHeader, PageId, PageType, lemma_put_page_header, page_type_code, put_page_header, view_page_header,
};
use crate::storage::page_store::{
    chain_ends, checksum_ok, free_page, lemma_chain_no_return, lemma_chain_same_links, lemma_chain_same_pages, lemma_stamped_checksum_ok,
    next_in_chain, on_chain, pages_after_write, spec_read_page, stamped, zero_bytes,
};
use crate::storage::storage_manager::{StorageManager, free_page_bytes, free_page_header, spec_allocate, same_graph_counters};
use crate::graph::string::constants::{
    MAX_STRING_CHUNK_SIZE, MAX_STRING_LENGTH, STRING_PAGE_BUFFER_OFFSET, STRING_PAGE_BUFFER_SIZE, STRING_PAGE_SLOT_SIZE,
};
use crate::graph::string::error::NexoraGraphStringError;
use crate::graph::string::page::{
    GraphStringPage, GraphStringSlot, RECORD_OFFSET_OFFSET, SLOT_COUNT_OFFSET, lemma_insert_slot_reads_back,
    lemma_string_page_same_tail, occupied_word_offset, spec_available_data, spec_get_slot, spec_insert_slot,
    spec_string_page_init, string_record_offset, string_slot, string_slot_count, string_slot_data,
};
use crate::graph::record::types::{PackedPtr, NULL_PTR_VALUE, lemma_packed_ptr_roundtrip, packed, ptr_page_id, ptr_slot, ptr_is_null};
use crate::graph::node::graph_node_store::Outcome;

verus! {

broadcast use group_codec;

/// How many links of a chunk chain a read or delete follows before it calls
/// the chain broken.
pub const STRING_CHAIN_FUEL: u32 = 65536;

/// The first page of a new string page `np` in front of `next`.
pub open spec fn new_string_page_bytes(np: u64, next: u64) -> Seq<u8> {
    put_page_header(
        spec_string_page_init(np),
        NexoraPageHeader {
            page_id: np,
            next_page_id: next,
            prev_page_id: SENTINEL_PAGE_ID,
            checksum: 0,
            page_type: page_type_code(PageType::String),
        },
    )
}

/// A new string page has no slots and its whole buffer free.
proof fn lemma_new_string_page(np: u64, next: u64)
    ensures
        new_string_page_bytes(np, next).len() == PAGE_SIZE,
        string_slot_count(new_string_page_bytes(np, next)) == 0,
        string_record_offset(new_string_page_bytes(np, next)) == STRING_PAGE_BUFFER_SIZE,
{
    let i = spec_string_page_init(np);
    let t = new_string_page_bytes(np, next);
    lemma_put_page_header(i, NexoraPageHeader {
        page_id: np,
        next_page_id: next,
        prev_page_id: SENTINEL_PAGE_ID,
        checksum: 0,
        page_type: page_type_code(PageType::String),
    });
    assert(t.subrange(64, 66) =~= i.subrange(64, 66));
    assert(t.subrange(66, 68) =~= i.subrange(66, 68));
}

/// What storing a chunk in a new string page does.
pub open spec fn spec_string_insert_into_new_page(
    pages: Seq<Seq<u8>>,
    f: NexoraFooter,
    data: Seq<u8>,
    total_length: u16,
    overflow: PackedPtr,
) -> Outcome<(PageId, usize), NexoraGraphStringError> {
    let (a, f1) = spec_allocate(pages, f);
    match a {
        Err(e) => (Err(NexoraGraphStringError::Storage(e)), pages, f1, false),
        Ok(np) => match spec_insert_slot(new_string_page_bytes(np.0, f1.first_string_page), total_length, data, overflow) {
            Err(e) => (Err(e), pages, f1, true),
            Ok((slot, s)) => (
                Ok((np, slot)),
                pages_after_write(pages, np.0 as int, stamped(s)),
                NexoraFooter { first_string_page: np.0, ..f1 },
                true,
            ),
        },
    }
}

/// What storing a chunk does: the first page of the chain from `pid` with
/// room takes it, or a new page when none has.
pub open spec fn spec_string_insert_into_page(
    pages: Seq<Seq<u8>>,
    f: NexoraFooter,
    data: Seq<u8>,
    total_length: u16,
    overflow: PackedPtr,
    pid: u64,
    fuel: nat,
) -> Outcome<(PageId, usize), NexoraGraphStringError>
    decreases fuel,
{
    if pid == SENTINEL_PAGE_ID {
        spec_string_insert_into_new_page(pages, f, data, total_length, overflow)
    } else if fuel == 0 {
        (Err(NexoraGraphStringError::Storage(NexoraStorageError::CorruptPage(pid))), pages, f, false)
    } else {
        match spec_read_page(pages, pid, true) {
            Err(e) => (Err(NexoraGraphStringError::Storage(e)), pages, f, false),
            Ok(s) => if spec_available_data(s) >= data.len() {
                match spec_insert_slot(s, total_length, data, overflow) {
                    Err(e) => (Err(e), pages, f, false),
                    Ok((slot, s2)) => (Ok((PageId(pid), slot)), pages_after_write(pages, pid as int, stamped(s2)), f, false),
                }
            } else {
                spec_string_insert_into_page(pages, f, data, total_length, overflow, view_page_header(s).next_page_id, (fuel - 1) as nat)
            },
        }
    }
}

/// Where the chunk that ends at `cursor` starts.
pub open spec fn chunk_start(cursor: int) -> int {
    if cursor > MAX_STRING_CHUNK_SIZE { cursor - MAX_STRING_CHUNK_SIZE } else { 0 }
}

/// What storing the chunks of `data[..cursor]` does, last chunk first.
pub open spec fn spec_string_insert_chunks(
    pages: Seq<Seq<u8>>,
    f: NexoraFooter,
    data: Seq<u8>,
    cursor: int,
    overflow: PackedPtr,
    first_ptr: PackedPtr,
) -> Outcome<PackedPtr, NexoraGraphStringError>
    decreases cursor,
{
    if cursor <= 0 {
        (Ok(first_ptr), pages, f, false)
    } else {
        let cs = chunk_start(cursor);
        let tl: u16 = if cs == 0 { data.len() as u16 } else { 0 };
        let o = spec_string_insert_into_page(pages, f, data.subrange(cs, cursor), tl, overflow, f.first_string_page, pages.len());
        match o.0 {
            Err(e) => (Err(e), o.1, o.2, o.3),
            Ok((pid, slot)) => {
                let ptr = PackedPtr(packed(pid.0, slot as u8));
                let rest = spec_string_insert_chunks(o.1, o.2, data, cs, ptr, if cs == 0 { ptr } else { first_ptr });
                (rest.0, rest.1, rest.2, o.3 || rest.3)
            },
        }
    }
}

/// What storing `data` does.
pub open spec fn spec_string_insert(pages: Seq<Seq<u8>>, f: NexoraFooter, data: Seq<u8>) -> Outcome<PackedPtr, NexoraGraphStringError> {
    if data.len() > MAX_STRING_LENGTH {
        (Err(NexoraGraphStringError::StringTooLong), pages, f, false)
    } else {
        spec_string_insert_chunks(pages, f, data, data.len() as int, PackedPtr(NULL_PTR_VALUE), PackedPtr(NULL_PTR_VALUE))
    }
}

/// Most chunks a string of `n` bytes takes.
pub open spec fn chunk_count(n: int) -> int {
    (n + MAX_STRING_CHUNK_SIZE - 1) / MAX_STRING_CHUNK_SIZE as int
}

/// What reading the chunk chain from `ptr` into `out` gives, `written`
/// bytes in: the total length and the output bytes.
pub open spec fn spec_string_get(
    pages: Seq<Seq<u8>>,
    ptr: PackedPtr,
    out: Seq<u8>,
    written: int,
    total: u16,
    fuel: nat,
) -> (Result<u16, NexoraGraphStringError>, Seq<u8>)
    decreases fuel,
{
    if ptr_is_null(ptr) {
        (Ok(total), out)
    } else if fuel == 0 {
        (Err(NexoraGraphStringError::Storage(NexoraStorageError::CorruptPage(ptr_page_id(ptr)))), out)
    } else {
        match spec_read_page(pages, ptr_page_id(ptr), true) {
            Err(e) => (Err(NexoraGraphStringError::Storage(e)), out),
            Ok(s) => match spec_get_slot(s, ptr_slot(ptr) as int) {
                Err(e) => (Err(e), out),
                Ok(slot) => if written == 0 && out.len() < slot.total_length {
                    (Err(NexoraGraphStringError::BufferTooSmall), out)
                } else if written + slot.chunk_length > out.len() {
                    (Err(NexoraGraphStringError::BufferTooSmall), out)
                } else if slot.offset + slot.chunk_length > STRING_PAGE_BUFFER_SIZE {
                    (Err(NexoraGraphStringError::SlotNotFound), out)
                } else {
                    spec_string_get(
                        pages,
                        slot.overflow_slot,
                        put_bytes(out, written, s.subrange(
                            STRING_PAGE_BUFFER_OFFSET + slot.offset as int,
                            STRING_PAGE_BUFFER_OFFSET + slot.offset as int + slot.chunk_length as int,
                        )),
                        written + slot.chunk_length,
                        if written == 0 { slot.total_length } else { total },
                        (fuel - 1) as nat,
                    )
                },
            },
        }
    }
}

/// Whether reading the chunk chain from `ptr`, for at most `fuel` chunks,
/// stays clear of page `q`.
pub open spec fn string_chain_avoids(pages: Seq<Seq<u8>>, ptr: PackedPtr, fuel: nat, q: u64) -> bool
    decreases fuel,
{
    ptr_is_null(ptr) || fuel == 0 || (ptr_page_id(ptr) != q && match spec_read_page(pages, ptr_page_id(ptr), true) {
        Err(_) => true,
        Ok(s) => match spec_get_slot(s, ptr_slot(ptr) as int) {
            Err(_) => true,
            Ok(slot) => string_chain_avoids(pages, slot.overflow_slot, (fuel - 1) as nat, q),
        },
    })
}

/// Writing a page that the chunk chain stays clear of keeps what reading
/// the chain gives.
pub proof fn lemma_string_get_write_frame(
    pages: Seq<Seq<u8>>,
    q: u64,
    d: Seq<u8>,
    ptr: PackedPtr,
    out: Seq<u8>,
    written: int,
    total: u16,
    fuel: nat,
)
    requires
        q < pages.len(),
        string_chain_avoids(pages, ptr, fuel, q),
    ensures
        spec_string_get(pages_after_write(pages, q as int, d), ptr, out, written, total, fuel)
            == spec_string_get(pages, ptr, out, written, total, fuel),
    decreases fuel,
{
    let p2 = pages_after_write(pages, q as int, d);
    if !ptr_is_null(ptr) && fuel > 0 {
        let pid = ptr_page_id(ptr);
        assert(spec_read_page(p2, pid, true) == spec_read_page(pages, pid, true));
        match spec_read_page(pages, pid, true) {
            Err(_) => {},
            Ok(s) => match spec_get_slot(s, ptr_slot(ptr) as int) {
                Err(_) => {},
                Ok(slot) => {
                    let next_out = put_bytes(out, written, s.subrange(
                        STRING_PAGE_BUFFER_OFFSET + slot.offset as int,
                        STRING_PAGE_BUFFER_OFFSET + slot.offset as int + slot.chunk_length as int,
                    ));
                    lemma_string_get_write_frame(
                        pages,
                        q,
                        d,
                        slot.overflow_slot,
                        next_out,
                        written + slot.chunk_length,
                        if written == 0 { slot.total_length } else { total },
                        (fuel - 1) as nat,
                    );
                },
            },
        }
    }
}

/// What deleting the chunk chain from `ptr` does to the pages.
pub open spec fn spec_string_delete(pages: Seq<Seq<u8>>, ptr: PackedPtr, fuel: nat) -> (Result<(), NexoraGraphStringError>, Seq<Seq<u8>>)
    decreases fuel,
{
    if ptr_is_null(ptr) {
        (Ok(()), pages)
    } else if fuel == 0 {
        (Err(NexoraGraphStringError::Storage(NexoraStorageError::CorruptPage(ptr_page_id(ptr)))), pages)
    } else {
        match spec_read_page(pages, ptr_page_id(ptr), true) {
            Err(e) => (Err(NexoraGraphStringError::Storage(e)), pages),
            Ok(s) => match spec_get_slot(s, ptr_slot(ptr) as int) {
                Err(e) => (Err(e), pages),
                Ok(slot) => {
                    let b = ptr_slot(ptr) as int;
                    let s2 = put_u64(s, occupied_word_offset(b), read_u64(s, occupied_word_offset(b)) & !(1u64 << ((b % 64) as u64)));
                    spec_string_delete(pages_after_write(pages, ptr_page_id(ptr) as int, stamped(s2)), slot.overflow_slot, (fuel - 1) as nat)
                },
            },
        }
    }
}

/// Whether the chunk chain from `ptr` holds `data[from..]`, on pages that
/// `within` allows: each chunk is a slot below its page's slot count whose
/// bytes lie at or above the page's record offset, and the first chunk
/// carries the total length.
pub open spec fn chain_holds(pages: Seq<Seq<u8>>, ptr: PackedPtr, data: Seq<u8>, from: int, within: spec_fn(u64) -> bool) -> bool
    decreases data.len() - from,
{
    if from >= data.len() {
        ptr_is_null(ptr)
    } else {
        let pid = ptr_page_id(ptr);
        let i = ptr_slot(ptr) as int;
        let s = pages[pid as int];
        let slot = string_slot(s, i);
        &&& !ptr_is_null(ptr)
        &&& pid < pages.len()
        &&& within(pid)
        &&& checksum_ok(s)
        &&& i < string_slot_count(s)
        &&& i < STRING_PAGE_BUFFER_SIZE / STRING_PAGE_SLOT_SIZE
        &&& 0 < slot.chunk_length
        &&& from + slot.chunk_length <= data.len()
        &&& slot.offset >= string_record_offset(s)
        &&& slot.offset + slot.chunk_length <= STRING_PAGE_BUFFER_SIZE
        &&& string_slot_data(s, i) == data.subrange(from, from + slot.chunk_length)
        &&& (from == 0 ==> slot.total_length == data.len())
        &&& chain_holds(pages, slot.overflow_slot, data, from + slot.chunk_length, within)
    }
}

/// Whether string page `t` keeps what page `s` holds: a good checksum, at
/// least its slots, a record offset no higher, and each slot whose bytes lie
/// at or above the record offset, with its bytes.
pub open spec fn string_page_keeps(s: Seq<u8>, t: Seq<u8>) -> bool {
    &&& checksum_ok(t)
    &&& t.len() == PAGE_SIZE
    &&& string_slot_count(t) >= string_slot_count(s)
    &&& string_record_offset(t) <= string_record_offset(s)
    &&& forall|i: int|
        0 <= i < string_slot_count(s) && string_slot(s, i).offset >= string_record_offset(s)
            && string_slot(s, i).offset + string_slot(s, i).chunk_length <= STRING_PAGE_BUFFER_SIZE
            ==> #[trigger] string_slot(t, i) == string_slot(s, i) && string_slot_data(t, i) == string_slot_data(s, i)
}

/// Keeping what a page holds is transitive.
pub proof fn lemma_keeps_trans(a: Seq<u8>, b: Seq<u8>, c: Seq<u8>)
    requires
        string_page_keeps(a, b),
        string_page_keeps(b, c),
    ensures
        string_page_keeps(a, c),
{
    assert forall|i: int|
        0 <= i < string_slot_count(a) && string_slot(a, i).offset >= string_record_offset(a)
            && string_slot(a, i).offset + string_slot(a, i).chunk_length <= STRING_PAGE_BUFFER_SIZE
        implies #[trigger] string_slot(c, i) == string_slot(a, i) && string_slot_data(c, i) == string_slot_data(a, i) by {
        assert(string_slot(b, i) == string_slot(a, i));
        assert(string_slot(c, i) == string_slot(b, i));
    }
}

/// A chunk chain survives any change that keeps each page it may read.
pub proof fn lemma_chain_frame(pages: Seq<Seq<u8>>, p2: Seq<Seq<u8>>, ptr: PackedPtr, data: Seq<u8>, from: int, within: spec_fn(u64) -> bool)
    requires
        chain_holds(pages, ptr, data, from, within),
        pages.len() <= p2.len(),
        forall|q: u64| q < pages.len() && #[trigger] within(q)
            ==> p2[q as int] == pages[q as int] || string_page_keeps(pages[q as int], p2[q as int]),
    ensures
        chain_holds(p2, ptr, data, from, within),
    decreases data.len() - from,
{
    if from < data.len() {
        let pid = ptr_page_id(ptr);
        let i = ptr_slot(ptr) as int;
        let slot = string_slot(pages[pid as int], i);
        assert(within(pid));
        lemma_chain_frame(pages, p2, slot.overflow_slot, data, from + slot.chunk_length, within);
    }
}

/// Reading a chunk chain that holds `data[from..]` copies those bytes into
/// `out` from `from` on.
pub proof fn lemma_chain_get(
    pages: Seq<Seq<u8>>,
    ptr: PackedPtr,
    data: Seq<u8>,
    from: int,
    within: spec_fn(u64) -> bool,
    out: Seq<u8>,
    total: u16,
    fuel: nat,
)
    requires
        chain_holds(pages, ptr, data, from, within),
        0 <= from <= data.len(),
        data.len() <= out.len(),
        data.len() <= MAX_STRING_LENGTH,
        fuel >= data.len() - from,
        from == 0 ==> total == 0,
    ensures
        spec_string_get(pages, ptr, out, from, total, fuel) == (
            Ok::<u16, NexoraGraphStringError>(if from == 0 { data.len() as u16 } else { total }),
            put_bytes(out, from, data.subrange(from, data.len() as int)),
        ),
    decreases data.len() - from,
{
    if from >= data.len() {
        assert(put_bytes(out, from, data.subrange(from, data.len() as int)) =~= out);
    } else {
        let pid = ptr_page_id(ptr);
        let i = ptr_slot(ptr) as int;
        let s = pages[pid as int];
        let slot = string_slot(s, i);
        let c = slot.chunk_length as int;
        let chunk = s.subrange(STRING_PAGE_BUFFER_OFFSET + slot.offset as int, STRING_PAGE_BUFFER_OFFSET + slot.offset as int + c);
        assert(chunk == data.subrange(from, from + c));
        let out1 = put_bytes(out, from, chunk);
        let total1: u16 = if from == 0 { slot.total_length } else { total };
        lemma_chain_get(pages, slot.overflow_slot, data, from + c, within, out1, total1, (fuel - 1) as nat);
        assert(put_bytes(out1, from + c, data.subrange(from + c, data.len() as int))
            =~= put_bytes(out, from, data.subrange(from, data.len() as int)));
    }
}

/// The total length a chunk of `data` starting at `cs` is stored with.
pub open spec fn chunk_total_length(data: Seq<u8>, cs: int) -> u16 {
    if cs == 0 { data.len() as u16 } else { 0 }
}

/// Whether `within` is closed under following next pointers in `pages`.
pub open spec fn within_closed(pages: Seq<Seq<u8>>, within: spec_fn(u64) -> bool) -> bool {
    forall|x: u64| x < pages.len() && x != SENTINEL_PAGE_ID && #[trigger] within(x)
        ==> next_in_chain(pages, x) == SENTINEL_PAGE_ID || within(next_in_chain(pages, x))
}

/// Whether the allocation state lets a chunk store run: no free pages, page
/// ids that stay below the null pointer's, new pages that `within` allows,
/// and, unless `within` allows every page, no gap between the pages and the
/// page count.
pub open spec fn chunk_store_ok(pages: Seq<Seq<u8>>, f: NexoraFooter, within: spec_fn(u64) -> bool) -> bool {
    &&& forall|i: int| 0 <= i < pages.len() ==> #[trigger] pages[i].len() == PAGE_SIZE
    &&& f.first_free_page == SENTINEL_PAGE_ID
    &&& pages.len() <= f.page_count
    &&& (pages.len() == f.page_count || forall|x: u64| #[trigger] within(x))
    &&& forall|x: u64| x >= pages.len() ==> #[trigger] within(x)
    &&& within_closed(pages, within)
    &&& (f.first_string_page == SENTINEL_PAGE_ID || within(f.first_string_page))
}

/// Storing the chunk `data[cs..cursor]` in front of a chain that holds
/// `data[cursor..]` keeps that chain and gives a chain that holds
/// `data[cs..]`; it changes only pages that `within` allows.
proof fn lemma_chunk_insert_holds(
    pages: Seq<Seq<u8>>,
    f: NexoraFooter,
    data: Seq<u8>,
    cs: int,
    cursor: int,
    overflow: PackedPtr,
    pid: u64,
    fuel: nat,
    within: spec_fn(u64) -> bool,
)
    requires
        chunk_store_ok(pages, f, within),
        f.page_count < 0xff_ffff_ffff_ffff,
        0 <= cs < cursor <= data.len() <= MAX_STRING_LENGTH,
        chain_holds(pages, overflow, data, cursor, within),
        pid == SENTINEL_PAGE_ID || within(pid),
        spec_string_insert_into_page(pages, f, data.subrange(cs, cursor), chunk_total_length(data, cs), overflow, pid, fuel).0 is Ok,
    ensures
        ({
            let o = spec_string_insert_into_page(pages, f, data.subrange(cs, cursor), chunk_total_length(data, cs), overflow, pid, fuel);
            let (np, slot) = o.0->Ok_0;
            &&& chunk_store_ok(o.1, o.2, within)
            &&& o.2 == (NexoraFooter { page_count: o.2.page_count, first_string_page: o.2.first_string_page, ..f })
            &&& o.2.page_count <= f.page_count + 1
            &&& o.1.len() >= pages.len()
            &&& forall|q: u64| q < pages.len() && o.1[q as int] != pages[q as int] ==> #[trigger] within(q)
            &&& forall|q: u64| q < pages.len() && #[trigger] within(q)
                ==> o.1[q as int] == pages[q as int] || string_page_keeps(pages[q as int], o.1[q as int])
            &&& chain_holds(o.1, overflow, data, cursor, within)
            &&& chain_holds(o.1, PackedPtr(packed(np.0, slot as u8)), data, cs, within)
        }),
    decreases fuel,
{
    let chunk = data.subrange(cs, cursor);
    let tl = chunk_total_length(data, cs);
    let o = spec_string_insert_into_page(pages, f, chunk, tl, overflow, pid, fuel);
    if pid == SENTINEL_PAGE_ID {
        let (a, f1) = spec_allocate(pages, f);
        let np = a->Ok_0;
        let s0 = new_string_page_bytes(np.0, f1.first_string_page);
        lemma_new_string_page(np.0, f1.first_string_page);
        let (slot, s2) = spec_insert_slot(s0, tl, chunk, overflow)->Ok_0;
        lemma_insert_slot_reads_back(s0, tl, chunk, overflow);
        lemma_stamped_checksum_ok(s2);
        lemma_string_page_same_tail(s2, stamped(s2));
        let p1 = pages_after_write(pages, np.0 as int, stamped(s2));
        assert(o.1 == p1);
        assert forall|q: u64| q < pages.len() && #[trigger] within(q)
            implies p1[q as int] == pages[q as int] || string_page_keeps(pages[q as int], p1[q as int]) by {
            assert(p1[q as int] == pages[q as int]);
        }
        lemma_chain_frame(pages, p1, overflow, data, cursor, within);
        lemma_packed_ptr_roundtrip(np.0, slot as u8);
        let ptr = PackedPtr(packed(np.0, slot as u8));
        assert(p1[np.0 as int] == stamped(s2));
        assert(string_slot_data(stamped(s2), slot as int) == chunk);
        assert(chain_holds(p1, ptr, data, cs, within));
        assert(stamped(s2).subrange(8, 16) =~= s0.subrange(8, 16));
        assert(next_in_chain(p1, np.0) == f1.first_string_page);
        assert forall|x: u64| x < p1.len() && x != SENTINEL_PAGE_ID && #[trigger] within(x)
            implies next_in_chain(p1, x) == SENTINEL_PAGE_ID || within(next_in_chain(p1, x)) by {
            if x < pages.len() {
                assert(p1[x as int] == pages[x as int]);
            }
        }
    } else if fuel > 0 {
        let s = pages[pid as int];
        if spec_read_page(pages, pid, true) is Ok && spec_available_data(s) >= chunk.len() {
            let (slot, s2) = spec_insert_slot(s, tl, chunk, overflow)->Ok_0;
            lemma_insert_slot_reads_back(s, tl, chunk, overflow);
            lemma_stamped_checksum_ok(s2);
            lemma_string_page_same_tail(s2, stamped(s2));
            let p1 = pages_after_write(pages, pid as int, stamped(s2));
            assert(o.1 == p1);
            assert forall|i: int|
                0 <= i < string_slot_count(s) && string_slot(s, i).offset >= string_record_offset(s)
                    && string_slot(s, i).offset + string_slot(s, i).chunk_length <= STRING_PAGE_BUFFER_SIZE
                implies #[trigger] string_slot(stamped(s2), i) == string_slot(s, i)
                    && string_slot_data(stamped(s2), i) == string_slot_data(s, i) by {
                assert(string_slot(s2, i) == string_slot(s, i));
                assert(string_slot(stamped(s2), i) == string_slot(s2, i));
                assert(string_slot_data(stamped(s2), i) == string_slot_data(s2, i));
            }
            assert(string_page_keeps(s, stamped(s2)));
            assert forall|q: u64| q < pages.len() && #[trigger] within(q)
                implies p1[q as int] == pages[q as int] || string_page_keeps(pages[q as int], p1[q as int]) by {
                if q == pid {
                    assert(p1[q as int] == stamped(s2));
                }
            }
            lemma_chain_frame(pages, p1, overflow, data, cursor, within);
            lemma_packed_ptr_roundtrip(pid, slot as u8);
            let ptr = PackedPtr(packed(pid, slot as u8));
            assert(p1[pid as int] == stamped(s2));
            assert(string_slot_data(stamped(s2), slot as int) == chunk);
            assert(chain_holds(p1, ptr, data, cs, within));
            assert(stamped(s2).subrange(8, 16) =~= s.subrange(8, 16));
            assert(next_in_chain(p1, pid) == next_in_chain(pages, pid));
            assert forall|x: u64| x < p1.len() && x != SENTINEL_PAGE_ID && #[trigger] within(x)
                implies next_in_chain(p1, x) == SENTINEL_PAGE_ID || within(next_in_chain(p1, x)) by {
                if x != pid {
                    assert(p1[x as int] == pages[x as int]);
                }
            }
        } else {
            assert(within(pid));
            lemma_chunk_insert_holds(pages, f, data, cs, cursor, overflow, view_page_header(s).next_page_id, (fuel - 1) as nat, within);
        }
    }
}

/// Storing the chunks of `data[..cursor]` in front of a chain that holds
/// `data[cursor..]` gives a chain that holds all of `data`, and changes only
/// pages that `within` allows.
proof fn lemma_insert_chunks_hold(
    pages: Seq<Seq<u8>>,
    f: NexoraFooter,
    data: Seq<u8>,
    cursor: int,
    overflow: PackedPtr,
    first_ptr: PackedPtr,
    within: spec_fn(u64) -> bool,
)
    requires
        chunk_store_ok(pages, f, within),
        f.page_count + chunk_count(cursor) < 0xff_ffff_ffff_ffff,
        0 <= cursor <= data.len() <= MAX_STRING_LENGTH,
        chain_holds(pages, overflow, data, cursor, within),
        cursor == 0 ==> first_ptr == overflow,
        spec_string_insert_chunks(pages, f, data, cursor, overflow, first_ptr).0 is Ok,
    ensures
        ({
            let r = spec_string_insert_chunks(pages, f, data, cursor, overflow, first_ptr);
            &&& chunk_store_ok(r.1, r.2, within)
            &&& r.2 == (NexoraFooter { page_count: r.2.page_count, first_string_page: r.2.first_string_page, ..f })
            &&& r.2.page_count <= f.page_count + chunk_count(cursor)
            &&& r.1.len() >= pages.len()
            &&& forall|q: u64| q < pages.len() && r.1[q as int] != pages[q as int] ==> #[trigger] within(q)
            &&& forall|q: u64| q < pages.len() && #[trigger] within(q)
                ==> r.1[q as int] == pages[q as int] || string_page_keeps(pages[q as int], r.1[q as int])
            &&& chain_holds(r.1, r.0->Ok_0, data, 0, within)
        }),
    decreases cursor,
{
    if cursor > 0 {
        let cs = chunk_start(cursor);
        let o = spec_string_insert_into_page(pages, f, data.subrange(cs, cursor), chunk_total_length(data, cs), overflow, f.first_string_page, pages.len());
        lemma_chunk_insert_holds(pages, f, data, cs, cursor, overflow, f.first_string_page, pages.len(), within);
        let (pid, slot) = o.0->Ok_0;
        let ptr = PackedPtr(packed(pid.0, slot as u8));
        assert(chunk_count(cs) + 1 == chunk_count(cursor));
        lemma_insert_chunks_hold(o.1, o.2, data, cs, ptr, if cs == 0 { ptr } else { first_ptr }, within);
        let r = spec_string_insert_chunks(pages, f, data, cursor, overflow, first_ptr);
        assert forall|q: u64| q < pages.len() && r.1[q as int] != pages[q as int] implies #[trigger] within(q) by {
            if o.1[q as int] == pages[q as int] {
                assert(r.1[q as int] != o.1[q as int]);
            }
        }
        assert forall|q: u64| q < pages.len() && #[trigger] within(q)
            implies r.1[q as int] == pages[q as int] || string_page_keeps(pages[q as int], r.1[q as int]) by {
            if o.1[q as int] != pages[q as int] && r.1[q as int] != o.1[q as int] {
                lemma_keeps_trans(pages[q as int], o.1[q as int], r.1[q as int]);
            }
        }
    }
}

/// Storing a chunk, in a store with no free pages and no page past its page
/// count, only adds a page in front of the string chain: the chain still
/// ends, keeps every page it had, and holds every page added.
proof fn lemma_chunk_insert_chain(
    pages: Seq<Seq<u8>>,
    f: NexoraFooter,
    chunk: Seq<u8>,
    tl: u16,
    overflow: PackedPtr,
    pid: u64,
    fuel: nat,
)
    requires
        forall|i: int| 0 <= i < pages.len() ==> #[trigger] pages[i].len() == PAGE_SIZE,
        f.first_free_page == SENTINEL_PAGE_ID,
        pages.len() == f.page_count,
        f.page_count < u64::MAX,
        chain_ends(pages, f.first_string_page, pages.len()),
        spec_string_insert_into_page(pages, f, chunk, tl, overflow, pid, fuel).0 is Ok,
    ensures
        ({
            let o = spec_string_insert_into_page(pages, f, chunk, tl, overflow, pid, fuel);
            let fs = o.2.first_string_page;
            &&& o.1.len() == o.2.page_count
            &&& o.2.first_free_page == SENTINEL_PAGE_ID
            &&& o.2.page_count <= f.page_count + 1
            &&& o.1.len() >= pages.len()
            &&& forall|i: int| 0 <= i < o.1.len() ==> #[trigger] o.1[i].len() == PAGE_SIZE
            &&& chain_ends(o.1, fs, o.1.len())
            &&& forall|q: u64| #[trigger] on_chain(pages, f.first_string_page, q, pages.len()) ==> on_chain(o.1, fs, q, o.1.len())
            &&& forall|q: u64| pages.len() <= q < o.1.len() ==> #[trigger] on_chain(o.1, fs, q, o.1.len())
            &&& forall|q: u64| #[trigger] on_chain(o.1, fs, q, o.1.len())
                ==> q >= pages.len() || on_chain(pages, f.first_string_page, q, pages.len())
        }),
    decreases fuel,
{
    let o = spec_string_insert_into_page(pages, f, chunk, tl, overflow, pid, fuel);
    let fs0 = f.first_string_page;
    let k = pages.len();
    if pid == SENTINEL_PAGE_ID {
        let (a, f1) = spec_allocate(pages, f);
        let np = a->Ok_0;
        let s0 = new_string_page_bytes(np.0, f1.first_string_page);
        lemma_new_string_page(np.0, f1.first_string_page);
        let (slot, s2) = spec_insert_slot(s0, tl, chunk, overflow)->Ok_0;
        lemma_insert_slot_reads_back(s0, tl, chunk, overflow);
        lemma_stamped_checksum_ok(s2);
        lemma_string_page_same_tail(s2, stamped(s2));
        let p1 = pages_after_write(pages, np.0 as int, stamped(s2));
        assert(o.1 == p1);
        assert(np.0 == k);
        assert(p1.len() == k + 1);
        assert(stamped(s2).subrange(8, 16) =~= s0.subrange(8, 16));
        assert(next_in_chain(p1, np.0) == fs0);
        assert forall|q: u64| #[trigger] on_chain(pages, fs0, q, k) implies q < pages.len() && p1[q as int] == pages[q as int] by {
            crate::storage::page_store::lemma_on_chain_in_store(pages, fs0, q, k);
        }
        lemma_chain_same_pages(pages, p1, fs0, k);
        assert(chain_ends(p1, np.0, k + 1));
        assert forall|q: u64| #[trigger] on_chain(pages, fs0, q, k) implies on_chain(p1, np.0, q, p1.len()) by {
            assert(on_chain(p1, fs0, q, k));
        }
        assert forall|q: u64| #[trigger] on_chain(p1, np.0, q, p1.len()) implies q >= pages.len() || on_chain(pages, fs0, q, k) by {
            if q != np.0 {
                assert(on_chain(p1, fs0, q, k));
            }
        }
    } else if fuel > 0 {
        let s = pages[pid as int];
        if spec_read_page(pages, pid, true) is Ok && spec_available_data(s) >= chunk.len() {
            let (slot, s2) = spec_insert_slot(s, tl, chunk, overflow)->Ok_0;
            lemma_insert_slot_reads_back(s, tl, chunk, overflow);
            lemma_stamped_checksum_ok(s2);
            lemma_string_page_same_tail(s2, stamped(s2));
            let p1 = pages_after_write(pages, pid as int, stamped(s2));
            assert(o.1 == p1 && o.2 == f);
            assert(stamped(s2).subrange(8, 16) =~= s.subrange(8, 16));
            assert forall|q: u64| #[trigger] on_chain(pages, fs0, q, k)
                implies q < p1.len() && next_in_chain(p1, q) == next_in_chain(pages, q) by {
                crate::storage::page_store::lemma_on_chain_in_store(pages, fs0, q, k);
            }
            lemma_chain_same_links(pages, p1, fs0, k);
        } else {
            lemma_chunk_insert_chain(pages, f, chunk, tl, overflow, view_page_header(s).next_page_id, (fuel - 1) as nat);
        }
    }
}

/// Storing the chunks of `data[..cursor]`, in a store with no free pages and
/// no page past its page count, keeps the string chain ending, with every
/// page it had and every page added.
proof fn lemma_insert_chunks_chain(
    pages: Seq<Seq<u8>>,
    f: NexoraFooter,
    data: Seq<u8>,
    cursor: int,
    overflow: PackedPtr,
    first_ptr: PackedPtr,
)
    requires
        forall|i: int| 0 <= i < pages.len() ==> #[trigger] pages[i].len() == PAGE_SIZE,
        f.first_free_page == SENTINEL_PAGE_ID,
        pages.len() == f.page_count,
        f.page_count + chunk_count(cursor) < u64::MAX,
        0 <= cursor <= data.len(),
        chain_ends(pages, f.first_string_page, pages.len()),
        spec_string_insert_chunks(pages, f, data, cursor, overflow, first_ptr).0 is Ok,
    ensures
        ({
            let r = spec_string_insert_chunks(pages, f, data, cursor, overflow, first_ptr);
            let fs = r.2.first_string_page;
            &&& r.1.len() == r.2.page_count
            &&& r.2.first_free_page == SENTINEL_PAGE_ID
            &&& forall|i: int| 0 <= i < r.1.len() ==> #[trigger] r.1[i].len() == PAGE_SIZE
            &&& r.2.page_count <= f.page_count + chunk_count(cursor)
            &&& chain_ends(r.1, fs, r.1.len())
            &&& forall|q: u64| #[trigger] on_chain(pages, f.first_string_page, q, pages.len()) ==> on_chain(r.1, fs, q, r.1.len())
            &&& forall|q: u64| pages.len() <= q < r.1.len() ==> #[trigger] on_chain(r.1, fs, q, r.1.len())
            &&& forall|q: u64| #[trigger] on_chain(r.1, fs, q, r.1.len())
                ==> q >= pages.len() || on_chain(pages, f.first_string_page, q, pages.len())
        }),
    decreases cursor,
{
    if cursor > 0 {
        let cs = chunk_start(cursor);
        let tl: u16 = if cs == 0 { data.len() as u16 } else { 0 };
        let o = spec_string_insert_into_page(pages, f, data.subrange(cs, cursor), tl, overflow, f.first_string_page, pages.len());
        lemma_chunk_insert_chain(pages, f, data.subrange(cs, cursor), tl, overflow, f.first_string_page, pages.len());
        let (pid, slot) = o.0->Ok_0;
        let ptr = PackedPtr(packed(pid.0, slot as u8));
        assert(chunk_count(cs) + 1 == chunk_count(cursor));
        lemma_insert_chunks_chain(o.1, o.2, data, cs, ptr, if cs == 0 { ptr } else { first_ptr });
        let r = spec_string_insert_chunks(pages, f, data, cursor, overflow, first_ptr);
        assert forall|q: u64| pages.len() <= q < r.1.len() implies #[trigger] on_chain(r.1, r.2.first_string_page, q, r.1.len()) by {
            if q < o.1.len() {
                assert(on_chain(o.1, o.2.first_string_page, q, o.1.len()));
            }
        }
        assert forall|q: u64| #[trigger] on_chain(r.1, r.2.first_string_page, q, r.1.len())
            implies q >= pages.len() || on_chain(pages, f.first_string_page, q, pages.len()) by {
            if q < o.1.len() {
                assert(on_chain(o.1, o.2.first_string_page, q, o.1.len()));
            }
        }
    }
}

/// Storing `data` in a store with no free pages and no page past its page
/// count only adds pages in front of the string chain: the chain still
/// ends, keeps every page it had, and holds every page added.
pub proof fn lemma_string_insert_chain(pages: Seq<Seq<u8>>, f: NexoraFooter, data: Seq<u8>)
    requires
        forall|i: int| 0 <= i < pages.len() ==> #[trigger] pages[i].len() == PAGE_SIZE,
        f.first_free_page == SENTINEL_PAGE_ID,
        pages.len() == f.page_count,
        f.page_count + chunk_count(data.len() as int) < u64::MAX,
        chain_ends(pages, f.first_string_page, pages.len()),
        spec_string_insert(pages, f, data).0 is Ok,
    ensures
        ({
            let s = spec_string_insert(pages, f, data);
            let fs = s.2.first_string_page;
            &&& s.1.len() == s.2.page_count
            &&& chain_ends(s.1, fs, s.1.len())
            &&& forall|q: u64| #[trigger] on_chain(pages, f.first_string_page, q, pages.len()) ==> on_chain(s.1, fs, q, s.1.len())
            &&& forall|q: u64| pages.len() <= q < s.1.len() ==> #[trigger] on_chain(s.1, fs, q, s.1.len())
            &&& forall|q: u64| #[trigger] on_chain(s.1, fs, q, s.1.len())
                ==> q >= pages.len() || on_chain(pages, f.first_string_page, q, pages.len())
        }),
{
    lemma_insert_chunks_chain(pages, f, data, data.len() as int, PackedPtr(NULL_PTR_VALUE), PackedPtr(NULL_PTR_VALUE));
}

/// Storing `data` gives a pointer to a chain that holds it, on pages that
/// `within` allows, and changes only such pages.
pub proof fn lemma_string_insert_holds(pages: Seq<Seq<u8>>, f: NexoraFooter, data: Seq<u8>, within: spec_fn(u64) -> bool)
    requires
        chunk_store_ok(pages, f, within),
        f.page_count + chunk_count(data.len() as int) < 0xff_ffff_ffff_ffff,
        spec_string_insert(pages, f, data).0 is Ok,
    ensures
        ({
            let s = spec_string_insert(pages, f, data);
            &&& chunk_store_ok(s.1, s.2, within)
            &&& s.2.page_count <= f.page_count + chunk_count(data.len() as int)
            &&& s.1.len() >= pages.len()
            &&& forall|q: u64| q < pages.len() && s.1[q as int] != pages[q as int] ==> #[trigger] within(q)
            &&& forall|q: u64| q < pages.len() && #[trigger] within(q)
                ==> s.1[q as int] == pages[q as int] || string_page_keeps(pages[q as int], s.1[q as int])
            &&& chain_holds(s.1, s.0->Ok_0, data, 0, within)
            &&& s.2 == (NexoraFooter { page_count: s.2.page_count, first_string_page: s.2.first_string_page, ..f })
        }),
{
    let n = data.len() as int;
    assert(data.subrange(n, n) =~= Seq::<u8>::empty());
    lemma_insert_chunks_hold(pages, f, data, n, PackedPtr(NULL_PTR_VALUE), PackedPtr(NULL_PTR_VALUE), within);
}

/// The pages off the free list of the store.
pub open spec fn off_free_list(pages: Seq<Seq<u8>>, f: NexoraFooter) -> spec_fn(u64) -> bool {
    |q: u64| !free_page(pages, f, q)
}

/// Whether a store is fit for storing strings: pages of full size, a page
/// count that covers them, a free list that ends within the count of free
/// pages, a string chain that starts off the free list, and no page off the
/// free list that links into it.
pub open spec fn string_store_ok(pages: Seq<Seq<u8>>, f: NexoraFooter) -> bool {
    &&& forall|i: int| 0 <= i < pages.len() ==> #[trigger] pages[i].len() == PAGE_SIZE
    &&& pages.len() <= f.page_count
    &&& chain_ends(pages, f.first_free_page, f.free_pages_count as nat)
    &&& (f.first_string_page == SENTINEL_PAGE_ID || !free_page(pages, f, f.first_string_page))
    &&& forall|x: u64| x < pages.len() && x != SENTINEL_PAGE_ID && !#[trigger] free_page(pages, f, x)
        ==> next_in_chain(pages, x) == SENTINEL_PAGE_ID || !free_page(pages, f, next_in_chain(pages, x))
}

/// A store with an empty free list whose page count covers its pages of
/// full size is fit for strings; a new file is such a store.
pub proof fn lemma_no_free_pages_string_store_ok(pages: Seq<Seq<u8>>, f: NexoraFooter)
    requires
        forall|i: int| 0 <= i < pages.len() ==> #[trigger] pages[i].len() == PAGE_SIZE,
        pages.len() <= f.page_count,
        f.first_free_page == SENTINEL_PAGE_ID,
    ensures
        string_store_ok(pages, f),
        forall|q: u64| !#[trigger] free_page(pages, f, q),
{
}

/// A chunk chain whose pages meet one condition meets any weaker one.
pub proof fn lemma_chain_holds_mono(
    pages: Seq<Seq<u8>>,
    ptr: PackedPtr,
    data: Seq<u8>,
    from: int,
    w1: spec_fn(u64) -> bool,
    w2: spec_fn(u64) -> bool,
)
    requires
        chain_holds(pages, ptr, data, from, w1),
        forall|q: u64| #[trigger] w1(q) ==> w2(q),
    ensures
        chain_holds(pages, ptr, data, from, w2),
    decreases data.len() - from,
{
    if from < data.len() {
        let slot = string_slot(pages[ptr_page_id(ptr) as int], ptr_slot(ptr) as int);
        lemma_chain_holds_mono(pages, slot.overflow_slot, data, from + slot.chunk_length, w1, w2);
    }
}

/// Storing the chunk `data[cs..cursor]` in front of a chain off the free
/// list that holds `data[cursor..]` keeps that chain and gives a chain off
/// the free list that holds `data[cs..]`. A page taken off the free list
/// joins the string chain; every page that stays off the free list keeps
/// what it holds.
proof fn lemma_chunk_insert_free(
    pages: Seq<Seq<u8>>,
    f: NexoraFooter,
    data: Seq<u8>,
    cs: int,
    cursor: int,
    overflow: PackedPtr,
    pid: u64,
    fuel: nat,
)
    requires
        string_store_ok(pages, f),
        f.page_count < 0xff_ffff_ffff_ffff,
        0 <= cs < cursor <= data.len() <= MAX_STRING_LENGTH,
        chain_holds(pages, overflow, data, cursor, off_free_list(pages, f)),
        pid == SENTINEL_PAGE_ID || !free_page(pages, f, pid),
        spec_string_insert_into_page(pages, f, data.subrange(cs, cursor), chunk_total_length(data, cs), overflow, pid, fuel).0 is Ok,
    ensures
        ({
            let o = spec_string_insert_into_page(pages, f, data.subrange(cs, cursor), chunk_total_length(data, cs), overflow, pid, fuel);
            let (np, slot) = o.0->Ok_0;
            &&& string_store_ok(o.1, o.2)
            &&& o.2 == (NexoraFooter {
                page_count: o.2.page_count,
                first_string_page: o.2.first_string_page,
                first_free_page: o.2.first_free_page,
                free_pages_count: o.2.free_pages_count,
                ..f
            })
            &&& o.2.page_count <= f.page_count + 1
            &&& o.1.len() >= pages.len()
            &&& forall|q: u64| #[trigger] free_page(o.1, o.2, q) ==> free_page(pages, f, q)
            &&& forall|q: u64| q < pages.len() && !#[trigger] free_page(pages, f, q)
                ==> o.1[q as int] == pages[q as int] || string_page_keeps(pages[q as int], o.1[q as int])
            &&& chain_holds(o.1, overflow, data, cursor, off_free_list(o.1, o.2))
            &&& chain_holds(o.1, PackedPtr(packed(np.0, slot as u8)), data, cs, off_free_list(o.1, o.2))
        }),
    decreases fuel,
{
    let chunk = data.subrange(cs, cursor);
    let tl = chunk_total_length(data, cs);
    let o = spec_string_insert_into_page(pages, f, chunk, tl, overflow, pid, fuel);
    let k = pages.len();
    let w0 = off_free_list(pages, f);
    if pid == SENTINEL_PAGE_ID {
        let (a, f1) = spec_allocate(pages, f);
        let np = a->Ok_0;
        let s0 = new_string_page_bytes(np.0, f1.first_string_page);
        lemma_new_string_page(np.0, f1.first_string_page);
        let (slot, s2) = spec_insert_slot(s0, tl, chunk, overflow)->Ok_0;
        lemma_insert_slot_reads_back(s0, tl, chunk, overflow);
        lemma_stamped_checksum_ok(s2);
        lemma_string_page_same_tail(s2, stamped(s2));
        let p1 = pages_after_write(pages, np.0 as int, stamped(s2));
        let f2 = NexoraFooter { first_string_page: np.0, ..f1 };
        assert(o.1 == p1 && o.2 == f2);
        let w1 = off_free_list(p1, f2);
        assert(stamped(s2).subrange(8, 16) =~= s0.subrange(8, 16));
        assert(next_in_chain(p1, np.0) == f1.first_string_page);
        if f.first_free_page != SENTINEL_PAGE_ID {
            let ff = f.first_free_page;
            let c = f.free_pages_count as nat;
            let tail = next_in_chain(pages, ff);
            assert(np.0 == ff && ff < k);
            assert(c > 0);
            assert(free_page(pages, f, ff));
            assert(f1.first_free_page == tail && f1.free_pages_count == c - 1);
            assert(chain_ends(pages, tail, (c - 1) as nat));
            lemma_chain_no_return(pages, ff, c, (c - 1) as nat);
            assert forall|q: u64| #[trigger] on_chain(pages, tail, q, (c - 1) as nat) implies q < pages.len() && p1[q as int] == pages[q as int] by {
                crate::storage::page_store::lemma_on_chain_in_store(pages, tail, q, (c - 1) as nat);
            }
            lemma_chain_same_pages(pages, p1, tail, (c - 1) as nat);
            assert(p1.len() == k);
            assert forall|q: u64| #[trigger] free_page(p1, f2, q) implies free_page(pages, f, q) by {
                assert(on_chain(pages, tail, q, (c - 1) as nat));
            }
            assert(!free_page(p1, f2, ff));
            assert forall|q: u64| #[trigger] w0(q) implies w1(q) by {}
            assert forall|x: u64| x < p1.len() && x != SENTINEL_PAGE_ID && !#[trigger] free_page(p1, f2, x)
                implies next_in_chain(p1, x) == SENTINEL_PAGE_ID || !free_page(p1, f2, next_in_chain(p1, x)) by {
                if x != ff {
                    assert(p1[x as int] == pages[x as int]);
                    if free_page(pages, f, x) {
                        assert(on_chain(pages, tail, x, (c - 1) as nat));
                        assert(free_page(p1, f2, x));
                    }
                    assert(!free_page(pages, f, x));
                } else {
                    assert(next_in_chain(p1, x) == f.first_string_page);
                }
            }
        } else {
            assert(np.0 == f.page_count && np.0 >= k);
            assert forall|q: u64| #[trigger] free_page(p1, f2, q) implies free_page(pages, f, q) by {}
            assert forall|q: u64| #[trigger] w0(q) implies w1(q) by {}
            assert(!free_page(p1, f2, np.0));
        }
        assert forall|q: u64| q < pages.len() && #[trigger] w0(q)
            implies p1[q as int] == pages[q as int] || string_page_keeps(pages[q as int], p1[q as int]) by {
            assert(p1[q as int] == pages[q as int]);
        }
        lemma_chain_frame(pages, p1, overflow, data, cursor, w0);
        lemma_chain_holds_mono(p1, overflow, data, cursor, w0, w1);
        lemma_packed_ptr_roundtrip(np.0, slot as u8);
        let ptr = PackedPtr(packed(np.0, slot as u8));
        assert(p1[np.0 as int] == stamped(s2));
        assert(string_slot_data(stamped(s2), slot as int) == chunk);
        assert(w1(np.0));
        assert(chain_holds(p1, ptr, data, cs, w1));
        assert forall|q: u64| q < pages.len() && !#[trigger] free_page(pages, f, q)
            implies p1[q as int] == pages[q as int] || string_page_keeps(pages[q as int], p1[q as int]) by {
            assert(w0(q));
        }
    } else if fuel > 0 {
        let s = pages[pid as int];
        if spec_read_page(pages, pid, true) is Ok && spec_available_data(s) >= chunk.len() {
            let (slot, s2) = spec_insert_slot(s, tl, chunk, overflow)->Ok_0;
            lemma_insert_slot_reads_back(s, tl, chunk, overflow);
            lemma_stamped_checksum_ok(s2);
            lemma_string_page_same_tail(s2, stamped(s2));
            let p1 = pages_after_write(pages, pid as int, stamped(s2));
            assert(o.1 == p1 && o.2 == f);
            let w1 = off_free_list(p1, f);
            assert forall|i: int|
                0 <= i < string_slot_count(s) && string_slot(s, i).offset >= string_record_offset(s)
                    && string_slot(s, i).offset + string_slot(s, i).chunk_length <= STRING_PAGE_BUFFER_SIZE
                implies #[trigger] string_slot(stamped(s2), i) == string_slot(s, i)
                    && string_slot_data(stamped(s2), i) == string_slot_data(s, i) by {
                assert(string_slot(s2, i) == string_slot(s, i));
                assert(string_slot(stamped(s2), i) == string_slot(s2, i));
                assert(string_slot_data(stamped(s2), i) == string_slot_data(s2, i));
            }
            assert(string_page_keeps(s, stamped(s2)));
            assert(stamped(s2).subrange(8, 16) =~= s.subrange(8, 16));
            assert(next_in_chain(p1, pid) == next_in_chain(pages, pid));
            let c = f.free_pages_count as nat;
            assert forall|q: u64| #[trigger] on_chain(pages, f.first_free_page, q, c) implies q < pages.len() && p1[q as int] == pages[q as int] by {
                crate::storage::page_store::lemma_on_chain_in_store(pages, f.first_free_page, q, c);
            }
            lemma_chain_same_pages(pages, p1, f.first_free_page, c);
            assert(p1.len() == k);
            assert forall|q: u64| #[trigger] free_page(p1, f, q) == free_page(pages, f, q) by {}
            assert forall|q: u64| #[trigger] w0(q) implies w1(q) by {}
            assert forall|q: u64| q < pages.len() && #[trigger] w0(q)
                implies p1[q as int] == pages[q as int] || string_page_keeps(pages[q as int], p1[q as int]) by {
                if q == pid {
                    assert(p1[q as int] == stamped(s2));
                }
            }
            lemma_chain_frame(pages, p1, overflow, data, cursor, w0);
            lemma_chain_holds_mono(p1, overflow, data, cursor, w0, w1);
            lemma_packed_ptr_roundtrip(pid, slot as u8);
            let ptr = PackedPtr(packed(pid, slot as u8));
            assert(p1[pid as int] == stamped(s2));
            assert(string_slot_data(stamped(s2), slot as int) == chunk);
            assert(w1(pid));
            assert(chain_holds(p1, ptr, data, cs, w1));
            assert forall|x: u64| x < p1.len() && x != SENTINEL_PAGE_ID && !#[trigger] free_page(p1, f, x)
                implies next_in_chain(p1, x) == SENTINEL_PAGE_ID || !free_page(p1, f, next_in_chain(p1, x)) by {
                assert(!free_page(pages, f, x));
                if x != pid {
                    assert(p1[x as int] == pages[x as int]);
                }
            }
            assert forall|q: u64| q < pages.len() && !#[trigger] free_page(pages, f, q)
                implies p1[q as int] == pages[q as int] || string_page_keeps(pages[q as int], p1[q as int]) by {
                assert(w0(q));
            }
        } else {
            assert(!free_page(pages, f, pid));
            lemma_chunk_insert_free(pages, f, data, cs, cursor, overflow, view_page_header(s).next_page_id, (fuel - 1) as nat);
        }
    }
}

/// Storing the chunks of `data[..cursor]` in front of a chain off the free
/// list that holds `data[cursor..]` gives a chain off the free list that
/// holds all of `data`; every page that stays off the free list keeps what
/// it holds.
proof fn lemma_insert_chunks_free(
    pages: Seq<Seq<u8>>,
    f: NexoraFooter,
    data: Seq<u8>,
    cursor: int,
    overflow: PackedPtr,
    first_ptr: PackedPtr,
)
    requires
        string_store_ok(pages, f),
        f.page_count + chunk_count(cursor) < 0xff_ffff_ffff_ffff,
        0 <= cursor <= data.len() <= MAX_STRING_LENGTH,
        chain_holds(pages, overflow, data, cursor, off_free_list(pages, f)),
        cursor == 0 ==> first_ptr == overflow,
        spec_string_insert_chunks(pages, f, data, cursor, overflow, first_ptr).0 is Ok,
    ensures
        ({
            let r = spec_string_insert_chunks(pages, f, data, cursor, overflow, first_ptr);
            &&& string_store_ok(r.1, r.2)
            &&& r.2 == (NexoraFooter {
                page_count: r.2.page_count,
                first_string_page: r.2.first_string_page,
                first_free_page: r.2.first_free_page,
                free_pages_count: r.2.free_pages_count,
                ..f
            })
            &&& r.2.page_count <= f.page_count + chunk_count(cursor)
            &&& r.1.len() >= pages.len()
            &&& forall|q: u64| #[trigger] free_page(r.1, r.2, q) ==> free_page(pages, f, q)
            &&& forall|q: u64| q < pages.len() && !#[trigger] free_page(pages, f, q)
                ==> r.1[q as int] == pages[q as int] || string_page_keeps(pages[q as int], r.1[q as int])
            &&& chain_holds(r.1, r.0->Ok_0, data, 0, off_free_list(r.1, r.2))
        }),
    decreases cursor,
{
    if cursor > 0 {
        let cs = chunk_start(cursor);
        let o = spec_string_insert_into_page(pages, f, data.subrange(cs, cursor), chunk_total_length(data, cs), overflow, f.first_string_page, pages.len());
        lemma_chunk_insert_free(pages, f, data, cs, cursor, overflow, f.first_string_page, pages.len());
        let (pid, slot) = o.0->Ok_0;
        let ptr = PackedPtr(packed(pid.0, slot as u8));
        assert(chunk_count(cs) + 1 == chunk_count(cursor));
        lemma_insert_chunks_free(o.1, o.2, data, cs, ptr, if cs == 0 { ptr } else { first_ptr });
        let r = spec_string_insert_chunks(pages, f, data, cursor, overflow, first_ptr);
        assert forall|q: u64| q < pages.len() && !#[trigger] free_page(pages, f, q)
            implies r.1[q as int] == pages[q as int] || string_page_keeps(pages[q as int], r.1[q as int]) by {
            assert(!free_page(o.1, o.2, q));
            if o.1[q as int] != pages[q as int] && r.1[q as int] != o.1[q as int] {
                lemma_keeps_trans(pages[q as int], o.1[q as int], r.1[q as int]);
            }
        }
    }
}

/// The string `data` is stored from `ptr`: its chunks, in order, on pages of
/// the store off its free list.
pub open spec fn string_stored(pages: Seq<Seq<u8>>, f: NexoraFooter, ptr: PackedPtr, data: Seq<u8>) -> bool {
    &&& data.len() <= MAX_STRING_LENGTH
    &&& chain_holds(pages, ptr, data, 0, off_free_list(pages, f))
}

/// A stored string reads back: its length, and its bytes at the start of
/// the buffer.
pub proof fn lemma_stored_string_reads_back(pages: Seq<Seq<u8>>, f: NexoraFooter, ptr: PackedPtr, data: Seq<u8>, out: Seq<u8>)
    requires
        string_stored(pages, f, ptr, data),
        data.len() <= out.len(),
    ensures
        spec_string_get(pages, ptr, out, 0, 0, STRING_CHAIN_FUEL as nat)
            == (Ok::<u16, NexoraGraphStringError>(data.len() as u16), put_bytes(out, 0, data)),
{
    lemma_chain_get(pages, ptr, data, 0, off_free_list(pages, f), out, 0, STRING_CHAIN_FUEL as nat);
    assert(data.subrange(0, data.len() as int) =~= data);
}

/// Reading a stored string into a buffer too short for it gives
/// `BufferTooSmall` and leaves the buffer as it was.
pub proof fn lemma_stored_string_buffer_too_small(pages: Seq<Seq<u8>>, f: NexoraFooter, ptr: PackedPtr, data: Seq<u8>, out: Seq<u8>)
    requires
        string_stored(pages, f, ptr, data),
        out.len() < data.len(),
    ensures
        spec_string_get(pages, ptr, out, 0, 0, STRING_CHAIN_FUEL as nat)
            == (Err::<u16, NexoraGraphStringError>(NexoraGraphStringError::BufferTooSmall), out),
{
    let big = Seq::new(data.len(), |i: int| 0u8);
    lemma_chain_get(pages, ptr, data, 0, off_free_list(pages, f), big, 0, STRING_CHAIN_FUEL as nat);
}

/// Storing a string keeps every string stored before it, stores the new
/// one at the pointer it gives, and leaves the store fit for the next
/// insert: strings read back after any number of later inserts, with pages
/// taken off the free list as the store needs them. The pages the chunks
/// get must stay below the null pointer's page id.
pub proof fn lemma_string_insert_keeps_stored(
    pages: Seq<Seq<u8>>,
    f: NexoraFooter,
    data: Seq<u8>,
    ptr: PackedPtr,
    earlier: Seq<u8>,
)
    requires
        string_store_ok(pages, f),
        f.page_count + chunk_count(data.len() as int) < 0xff_ffff_ffff_ffff,
        spec_string_insert(pages, f, data).0 is Ok,
        string_stored(pages, f, ptr, earlier),
    ensures
        ({
            let s = spec_string_insert(pages, f, data);
            &&& string_stored(s.1, s.2, ptr, earlier)
            &&& string_stored(s.1, s.2, s.0->Ok_0, data)
            &&& string_store_ok(s.1, s.2)
            &&& s.2.page_count <= f.page_count + chunk_count(data.len() as int)
        }),
{
    let n = data.len() as int;
    assert(data.subrange(n, n) =~= Seq::<u8>::empty());
    lemma_insert_chunks_free(pages, f, data, n, PackedPtr(NULL_PTR_VALUE), PackedPtr(NULL_PTR_VALUE));
    let s = spec_string_insert(pages, f, data);
    let w0 = off_free_list(pages, f);
    let w1 = off_free_list(s.1, s.2);
    lemma_chain_frame(pages, s.1, ptr, earlier, 0, w0);
    assert forall|q: u64| #[trigger] w0(q) implies w1(q) by {}
    lemma_chain_holds_mono(s.1, ptr, earlier, 0, w0, w1);
}

/// A chain that holds in a store holds with any condition that its pages of
/// the store meet.
pub proof fn lemma_chain_holds_mono_in_store(
    pages: Seq<Seq<u8>>,
    ptr: PackedPtr,
    data: Seq<u8>,
    from: int,
    w1: spec_fn(u64) -> bool,
    w2: spec_fn(u64) -> bool,
)
    requires
        chain_holds(pages, ptr, data, from, w1),
        forall|q: u64| q < pages.len() && #[trigger] w1(q) ==> w2(q),
    ensures
        chain_holds(pages, ptr, data, from, w2),
    decreases data.len() - from,
{
    if from < data.len() {
        let s = pages[ptr_page_id(ptr) as int];
        let slot = string_slot(s, ptr_slot(ptr) as int);
        lemma_chain_holds_mono_in_store(pages, slot.overflow_slot, data, from + slot.chunk_length, w1, w2);
    }
}

/// A chunk chain whose pages meet two conditions meets both at once.
pub proof fn lemma_chain_holds_both(
    pages: Seq<Seq<u8>>,
    ptr: PackedPtr,
    data: Seq<u8>,
    from: int,
    w1: spec_fn(u64) -> bool,
    w2: spec_fn(u64) -> bool,
)
    requires
        chain_holds(pages, ptr, data, from, w1),
        chain_holds(pages, ptr, data, from, w2),
    ensures
        chain_holds(pages, ptr, data, from, |q: u64| w1(q) && w2(q)),
    decreases data.len() - from,
{
    if from < data.len() {
        let slot = string_slot(pages[ptr_page_id(ptr) as int], ptr_slot(ptr) as int);
        lemma_chain_holds_both(pages, slot.overflow_slot, data, from + slot.chunk_length, w1, w2);
    }
}

/// Putting on the free list a page that no string uses and no page off the
/// free list links to keeps every stored string and leaves the store fit
/// for strings: the page is taken again by a later insert.
pub proof fn lemma_free_page_keeps_stored(pages: Seq<Seq<u8>>, f: NexoraFooter, x: u64, ptr: PackedPtr, data: Seq<u8>)
    requires
        string_store_ok(pages, f),
        x < pages.len(),
        x != SENTINEL_PAGE_ID,
        !free_page(pages, f, x),
        f.free_pages_count < u64::MAX,
        x != f.first_string_page,
        forall|y: u64| y < pages.len() && y != SENTINEL_PAGE_ID && y != x && !#[trigger] free_page(pages, f, y)
            ==> next_in_chain(pages, y) != x,
        string_stored(pages, f, ptr, data),
        chain_holds(pages, ptr, data, 0, |q: u64| q != x),
    ensures
        ({
            let p2 = pages_after_write(pages, x as int, free_page_bytes(x, f.first_free_page));
            let f2 = NexoraFooter { first_free_page: x, free_pages_count: (f.free_pages_count + 1) as u64, ..f };
            &&& string_store_ok(p2, f2)
            &&& string_stored(p2, f2, ptr, data)
        }),
{
    let ff = f.first_free_page;
    let c = f.free_pages_count as nat;
    let fb = free_page_bytes(x, ff);
    let p2 = pages_after_write(pages, x as int, fb);
    let f2 = NexoraFooter { first_free_page: x, free_pages_count: (f.free_pages_count + 1) as u64, ..f };
    lemma_put_page_header(Seq::new(PAGE_SIZE as nat, |i: int| 0u8), free_page_header(x, ff));
    assert(p2.len() == pages.len());
    assert(next_in_chain(p2, x) == ff);
    assert forall|q: u64| #[trigger] on_chain(pages, ff, q, c) implies q < pages.len() && p2[q as int] == pages[q as int] by {
        crate::storage::page_store::lemma_on_chain_in_store(pages, ff, q, c);
    }
    lemma_chain_same_pages(pages, p2, ff, c);
    assert(chain_ends(p2, x, c + 1));
    assert forall|q: u64| #[trigger] free_page(p2, f2, q) == (q == x || free_page(pages, f, q)) by {}
    assert forall|y: u64| y < p2.len() && y != SENTINEL_PAGE_ID && !#[trigger] free_page(p2, f2, y)
        implies next_in_chain(p2, y) == SENTINEL_PAGE_ID || !free_page(p2, f2, next_in_chain(p2, y)) by {
        assert(y != x && !free_page(pages, f, y));
        assert(p2[y as int] == pages[y as int]);
    }
    let w0 = off_free_list(pages, f);
    let wx = |q: u64| q != x;
    lemma_chain_holds_both(pages, ptr, data, 0, w0, wx);
    let wb = |q: u64| w0(q) && wx(q);
    assert forall|q: u64| q < pages.len() && #[trigger] wb(q)
        implies p2[q as int] == pages[q as int] || string_page_keeps(pages[q as int], p2[q as int]) by {}
    lemma_chain_frame(pages, p2, ptr, data, 0, wb);
    assert forall|q: u64| #[trigger] wb(q) implies off_free_list(p2, f2)(q) by {}
    lemma_chain_holds_mono(p2, ptr, data, 0, wb, off_free_list(p2, f2));
}

/// Reading a string right after storing it gives it back: the length it was
/// stored with, and its bytes at the start of the buffer. Stated for a store
/// fit for strings (see `string_store_ok`), whose free list may hold pages;
/// the pages the chunks get must stay below the null pointer's page id.
pub proof fn lemma_string_insert_then_get(pages: Seq<Seq<u8>>, f: NexoraFooter, data: Seq<u8>, out: Seq<u8>)
    requires
        string_store_ok(pages, f),
        f.page_count + chunk_count(data.len() as int) < 0xff_ffff_ffff_ffff,
        data.len() <= out.len(),
        spec_string_insert(pages, f, data).0 is Ok,
    ensures
        ({
            let s = spec_string_insert(pages, f, data);
            spec_string_get(s.1, s.0->Ok_0, out, 0, 0, STRING_CHAIN_FUEL as nat)
                == (Ok::<u16, NexoraGraphStringError>(data.len() as u16), put_bytes(out, 0, data))
        }),
{
    let n = data.len() as int;
    assert(data.subrange(n, n) =~= Seq::<u8>::empty());
    lemma_insert_chunks_free(pages, f, data, n, PackedPtr(NULL_PTR_VALUE), PackedPtr(NULL_PTR_VALUE));
    let s = spec_string_insert(pages, f, data);
    lemma_stored_string_reads_back(s.1, s.2, s.0->Ok_0, data, out);
}

pub struct StringStore<'a> {
    pub storage: &'a mut StorageManager,
}

impl<'a> StringStore<'a> {
    /// The storage manager as it stands now.
    pub open spec fn sm(&self) -> StorageManager {
        *self.storage
    }

    pub fn new(storage: &'a mut StorageManager) -> (r: Self)
        ensures
            *r.storage == *old(storage),
            *final(r.storage) == *final(storage),
    {
        StringStore { storage }
    }

    fn read_string_page(&self, page_id: PageId) -> (r: Result<GraphStringPage, NexoraGraphStringError>)
        requires
            self.sm().inv(),
        ensures
            match spec_read_page(self.sm().store@, page_id.0, true) {
                Err(e) => r == Err::<GraphStringPage, NexoraGraphStringError>(NexoraGraphStringError::Storage(e)),
                Ok(s) => r is Ok && r->Ok_0@ == s && r->Ok_0.inv(),
            },
    {
        let mut buf: Vec<u8> = Vec::new();
        match self.storage.store.read_page(page_id, &mut buf, true) {
            Ok(()) => {},
            Err(e) => return Err(NexoraGraphStringError::Storage(e)),
        }
        Ok(GraphStringPage::from_bytes(buf))
    }

    /// Stores `data`; returns the pointer to its first chunk (null for an
    /// empty string).
    pub fn insert(&mut self, data: &[u8]) -> (r: Result<PackedPtr, NexoraGraphStringError>)
        requires
            old(self).sm().inv(),
            data@.len() <= MAX_STRING_LENGTH ==> old(self).sm().can_allocate(chunk_count(data@.len() as int)),
        ensures
            final(self).sm().inv(),
            *final(final(self).storage) == *final(old(self).storage),
            final(self).sm().header == old(self).sm().header,
            ({
                let s = spec_string_insert(old(self).sm().store@, old(self).sm().footer, data@);
                &&& r == s.0
                &&& final(self).sm().store@ == s.1
                &&& final(self).sm().footer == s.2
                &&& final(self).sm().is_footer_dirty() == (old(self).sm().is_footer_dirty() || s.3)
            }),
            forall|n: int| 0 <= n && #[trigger] old(self).sm().can_allocate(n + chunk_count(data@.len() as int))
                ==> final(self).sm().can_allocate(n),
            same_graph_counters(old(self).sm().footer, final(self).sm().footer),
    {
        if data.len() > MAX_STRING_LENGTH {
            return Err(NexoraGraphStringError::StringTooLong);
        }
        let ghost pages0 = self.sm().store@;
        let ghost f0 = self.sm().footer;
        let ghost dirty0 = self.sm().is_footer_dirty();
        let mut overflow = PackedPtr::null();
        let mut cursor = data.len();
        let mut first_ptr = PackedPtr::null();
        let ghost mut dirtied = false;
        while cursor > 0
            invariant
                self.sm().inv(),
                *final(self.storage) == *final(old(self).storage),
                self.sm().header == old(self).sm().header,
                cursor <= data@.len() <= MAX_STRING_LENGTH,
                pages0 == old(self).sm().store@,
                f0 == old(self).sm().footer,
                dirty0 == old(self).sm().is_footer_dirty(),
                self.sm().can_allocate(chunk_count(cursor as int)),
                forall|n: int| 0 <= n && #[trigger] old(self).sm().can_allocate(n + chunk_count(data@.len() as int))
                    ==> self.sm().can_allocate(n + chunk_count(cursor as int)),
                self.sm().is_footer_dirty() == (dirty0 || dirtied),
                same_graph_counters(old(self).sm().footer, self.sm().footer),
                ({
                    let s = spec_string_insert_chunks(pages0, f0, data@, data@.len() as int, PackedPtr(NULL_PTR_VALUE), PackedPtr(NULL_PTR_VALUE));
                    let t = spec_string_insert_chunks(self.sm().store@, self.sm().footer, data@, cursor as int, overflow, first_ptr);
                    &&& s.0 == t.0
                    &&& s.1 == t.1
                    &&& s.2 == t.2
                    &&& s.3 == (dirtied || t.3)
                }),
            decreases cursor,
        {
            let chunk_start = if cursor > MAX_STRING_CHUNK_SIZE { cursor - MAX_STRING_CHUNK_SIZE } else { 0 };
            let chunk = vstd::slice::slice_subrange(data, chunk_start, cursor);
            let tl: u16 = if chunk_start == 0 { data.len() as u16 } else { 0 };
            assert(chunk_count(chunk_start as int) + 1 <= chunk_count(cursor as int)) by {
                assert((chunk_start + MAX_STRING_CHUNK_SIZE - 1) / 3984 + 1 <= (cursor + MAX_STRING_CHUNK_SIZE - 1) / 3984);
            }
            let ghost o = spec_string_insert_into_page(self.sm().store@, self.sm().footer, chunk@, tl, overflow,
                self.sm().footer.first_string_page, self.sm().store@.len());
            let ghost t = spec_string_insert_chunks(self.sm().store@, self.sm().footer, data@, cursor as int, overflow, first_ptr);
            assert(chunk@ == data@.subrange(chunk_start as int, cursor as int));
            assert(chunk_start as int == crate::graph::string::graph_string_store::chunk_start(cursor as int));
            let (page_id, slot) = match self.insert_into_page(chunk, tl, overflow) {
                Ok(v) => v,
                Err(e) => {
                    assert(t.0 == Err::<PackedPtr, NexoraGraphStringError>(e));
                    return Err(e);
                },
            };
            let ptr = PackedPtr::new(page_id.as_u64(), slot as u8);
            if chunk_start == 0 {
                first_ptr = ptr;
            }
            overflow = ptr;
            cursor = chunk_start;
            proof {
                dirtied = dirtied || o.3;
            }
        }
        Ok(first_ptr)
    }

    fn insert_into_page(&mut self, data: &[u8], total_length: u16, overflow: PackedPtr) -> (r: Result<(PageId, usize), NexoraGraphStringError>)
        requires
            old(self).sm().inv(),
            old(self).sm().can_allocate(1),
        ensures
            final(self).sm().inv(),
            *final(final(self).storage) == *final(old(self).storage),
            final(self).sm().header == old(self).sm().header,
            ({
                let s = spec_string_insert_into_page(old(self).sm().store@, old(self).sm().footer, data@, total_length, overflow,
                    old(self).sm().footer.first_string_page, old(self).sm().store@.len());
                &&& r == s.0
                &&& final(self).sm().store@ == s.1
                &&& final(self).sm().footer == s.2
                &&& final(self).sm().is_footer_dirty() == (old(self).sm().is_footer_dirty() || s.3)
            }),
            forall|n: int| 1 <= n && #[trigger] old(self).sm().can_allocate(n) ==> final(self).sm().can_allocate(n - 1),
            same_graph_counters(old(self).sm().footer, final(self).sm().footer),
    {
        let ghost pages = self.sm().store@;
        let ghost f = self.sm().footer;
        let mut page_id_val = self.storage.footer.first_string_page;
        let mut fuel = self.storage.store.page_count();
        while page_id_val != SENTINEL_PAGE_ID
            invariant
                self.sm().inv(),
                self.sm() == *old(self).storage,
                *final(self.storage) == *final(old(self).storage),
                pages == self.sm().store@,
                f == self.sm().footer,
                spec_string_insert_into_page(pages, f, data@, total_length, overflow, f.first_string_page, pages.len())
                    == spec_string_insert_into_page(pages, f, data@, total_length, overflow, page_id_val, fuel as nat),
            decreases fuel,
        {
            if fuel == 0 {
                return Err(NexoraGraphStringError::Storage(NexoraStorageError::CorruptPage(page_id_val)));
            }
            let page_id = PageId(page_id_val);
            let mut page = self.read_string_page(page_id)?;
            if page.has_space(data.len()) {
                let slot = page.insert_slot(total_length, data, overflow)?;
                let _ = self.storage.store.write_page(page_id, page.as_bytes(), true);
                return Ok((page_id, slot));
            }
            page_id_val = page.page_header().next_page_id;
            fuel = fuel - 1;
        }
        self.insert_into_new_page(data, total_length, overflow)
    }

    fn insert_into_new_page(&mut self, data: &[u8], total_length: u16, overflow: PackedPtr) -> (r: Result<(PageId, usize), NexoraGraphStringError>)
        requires
            old(self).sm().inv(),
            old(self).sm().can_allocate(1),
        ensures
            final(self).sm().inv(),
            *final(final(self).storage) == *final(old(self).storage),
            final(self).sm().header == old(self).sm().header,
            ({
                let s = spec_string_insert_into_new_page(old(self).sm().store@, old(self).sm().footer, data@, total_length, overflow);
                &&& r == s.0
                &&& final(self).sm().store@ == s.1
                &&& final(self).sm().footer == s.2
                &&& final(self).sm().is_footer_dirty() == (old(self).sm().is_footer_dirty() || s.3)
            }),
            forall|n: int| 1 <= n && #[trigger] old(self).sm().can_allocate(n) ==> final(self).sm().can_allocate(n - 1),
            same_graph_counters(old(self).sm().footer, final(self).sm().footer),
    {
        let new_page_id = match self.storage.allocate_page() {
            Ok(p) => p,
            Err(e) => return Err(NexoraGraphStringError::Storage(e)),
        };
        let old_first = self.storage.footer.first_string_page;
        let mut page = GraphStringPage::init(new_page_id.as_u64());
        page.set_page_header(NexoraPageHeader {
            page_id: new_page_id.as_u64(),
            next_page_id: old_first,
            prev_page_id: SENTINEL_PAGE_ID,
            checksum: 0,
            page_type: PageType::String.to_u8(),
        });
        let slot = page.insert_slot(total_length, data, overflow)?;
        let _ = self.storage.store.write_page(new_page_id, page.as_bytes(), true);
        self.storage.footer.first_string_page = new_page_id.as_u64();
        self.storage.mark_footer_dirty();
        Ok((new_page_id, slot))
    }
    /// Reads the string that starts at `ptr` into `out`; returns its length.
    pub fn get(&self, ptr: PackedPtr, out: &mut [u8]) -> (r: Result<u16, NexoraGraphStringError>)
        requires
            self.sm().inv(),
        ensures
            ({
                let s = spec_string_get(self.sm().store@, ptr, old(out)@, 0, 0, STRING_CHAIN_FUEL as nat);
                &&& r == s.0
                &&& final(out)@ == s.1
            }),
            final(out)@.len() == old(out)@.len(),
    {
        let ghost pages = self.sm().store@;
        let mut current_ptr = ptr;
        let mut bytes_written: usize = 0;
        let mut total_length: u16 = 0;
        let mut fuel: u32 = STRING_CHAIN_FUEL;
        let n = out.len();
        while !current_ptr.is_null()
            invariant
                self.sm().inv(),
                pages == self.sm().store@,
                n == out@.len(),
                out@.len() == old(out)@.len(),
                bytes_written <= out@.len(),
                spec_string_get(pages, ptr, old(out)@, 0, 0, STRING_CHAIN_FUEL as nat)
                    == spec_string_get(pages, current_ptr, out@, bytes_written as int, total_length, fuel as nat),
            decreases fuel,
        {
            if fuel == 0 {
                return Err(NexoraGraphStringError::Storage(NexoraStorageError::CorruptPage(current_ptr.page_id())));
            }
            let page_id = PageId(current_ptr.page_id());
            let page = self.read_string_page(page_id)?;
            let slot = page.get_slot(current_ptr.slot() as usize)?;
            if bytes_written == 0 {
                total_length = slot.total_length;
                if n < total_length as usize {
                    return Err(NexoraGraphStringError::BufferTooSmall);
                }
            }
            let chunk_len = slot.chunk_length as usize;
            if chunk_len > n - bytes_written {
                return Err(NexoraGraphStringError::BufferTooSmall);
            }
            page.read_data(slot.offset, slot.chunk_length, out, bytes_written)?;
            bytes_written = bytes_written + chunk_len;
            current_ptr = slot.overflow_slot;
            fuel = fuel - 1;
        }
        Ok(total_length)
    }

    /// Frees the slots of every chunk of the string that starts at `ptr`.
    pub fn delete(&mut self, ptr: PackedPtr) -> (r: Result<(), NexoraGraphStringError>)
        requires
            old(self).sm().inv(),
        ensures
            final(self).sm().inv(),
            *final(final(self).storage) == *final(old(self).storage),
            final(self).sm().header == old(self).sm().header,
            final(self).sm().footer == old(self).sm().footer,
            final(self).sm().is_footer_dirty() == old(self).sm().is_footer_dirty(),
            ({
                let s = spec_string_delete(old(self).sm().store@, ptr, STRING_CHAIN_FUEL as nat);
                r == s.0 && final(self).sm().store@ == s.1
            }),
    {
        let mut current_ptr = ptr;
        let mut fuel: u32 = STRING_CHAIN_FUEL;
        while !current_ptr.is_null()
            invariant
                self.sm().inv(),
                *final(self.storage) == *final(old(self).storage),
                self.sm().header == old(self).sm().header,
                self.sm().footer == old(self).sm().footer,
                self.sm().is_footer_dirty() == old(self).sm().is_footer_dirty(),
                spec_string_delete(old(self).sm().store@, ptr, STRING_CHAIN_FUEL as nat)
                    == spec_string_delete(self.sm().store@, current_ptr, fuel as nat),
            decreases fuel,
        {
            if fuel == 0 {
                return Err(NexoraGraphStringError::Storage(NexoraStorageError::CorruptPage(current_ptr.page_id())));
            }
            let page_id = PageId(current_ptr.page_id());
            let mut page = self.read_string_page(page_id)?;
            let slot = page.get_slot(current_ptr.slot() as usize)?;
            let next_ptr = slot.overflow_slot;
            page.delete_slot(current_ptr.slot() as usize);
            let _ = self.storage.store.write_page(page_id, page.as_bytes(), true);
            current_ptr = next_ptr;
            fuel = fuel - 1;
        }
        Ok(())
    }
}


} // verus!
