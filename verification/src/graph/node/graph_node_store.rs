//! Nodes: records in a chain of node pages, found through the node page index.
//!
//! Node `n` lives in slot `n % 101` of node page number `n / 101`; the
//! index maps that number to the page id.
use vstd::prelude::*;

use crate::utils::codec::{group_codec, lemma_read_same_range, read_u8, read_u64, put_u8, put_u32, put_u64, same_range};
use crate::storage::constants::{PAGE_HEADER_SIZE, PAGE_SIZE, SENTINEL_PAGE_ID};
use crate::storage::error::NexoraStorageError;
use crate::storage::models::{NexoraFooter, NexoraPageHeader, PageId, PageType, lemma_put_page_header, page_type_code, view_page_header};
use crate::storage::page_store::{
    chain_ends, checksum_ok, free_page, lemma_chain_ends_from, lemma_chain_ends_more, lemma_chain_no_return, lemma_chain_pop,
    lemma_chain_same_pages, lemma_on_chain_in_store, lemma_on_chain_within, next_in_chain,
    lemma_stamped_checksum_ok, on_chain, pages_after_write, spec_read_page, stamped, zero_bytes,
};
use crate::storage::storage_manager::{StorageManager, free_page_bytes, free_page_header, spec_allocate};
use crate::graph::node::constants::MAX_RECORD_COUNT;
use crate::graph::node::error::NexoraGraphNodeError;
use crate::graph::node::page::{
    GraphNodePage, GraphNodeRecord, node_record, node_record_count, node_record_offset, node_record_is_active,
    lemma_put_node_record, node_slot, put_node_record, spec_node_page_init, spec_page_get_node,
};
use crate::graph::record::types::{
    PackedPtr, Record, RecordCursor, FLAG_ACTIVE, FLAG_DELETED, NULL_PTR_VALUE, lemma_packed_ptr_roundtrip, packed, ptr_page_id, ptr_slot,
    ptr_is_null,
};
use crate::index::page_index::constants::MAX_NODE_PAGE_INDEX_RECORD_COUNT;
use crate::index::page_index::node_page_index_store::{
    NodePageIndexStore, index_walk_clear, lemma_index_insert_then_lookup, new_index_page_bytes, lemma_walk_avoids_beyond,
    lemma_walk_avoids_step, lemma_walk_ok_avoids_beyond, lemma_walk_same_pages, lemma_walk_write_frame, next_of,
    spec_dir_page_id, spec_index_insert, spec_index_lookup, walk_avoids,
};

verus! {

broadcast use group_codec;

pub open spec fn node_err<T>(r: Result<T, NexoraStorageError>) -> Result<T, NexoraGraphNodeError> {
    match r {
        Ok(v) => Ok(v),
        Err(e) => Err(NexoraGraphNodeError::Storage(e)),
    }
}

/// The id of the page that holds node `node_id`, as the index gives it.
pub open spec fn spec_node_page_id(pages: Seq<Seq<u8>>, f: NexoraFooter, node_id: u64) -> Result<PageId, NexoraGraphNodeError> {
    node_err(spec_index_lookup(pages, f.first_page_index_page, (node_id / MAX_RECORD_COUNT as u64) as usize as int))
}

/// The bytes of node page `node_id` lives on, read with its checksum checked.
pub open spec fn spec_node_page_of(pages: Seq<Seq<u8>>, f: NexoraFooter, node_id: u64) -> Result<(PageId, Seq<u8>), NexoraGraphNodeError> {
    match spec_node_page_id(pages, f, node_id) {
        Err(e) => Err(e),
        Ok(pid) => match spec_read_page(pages, pid.0, true) {
            Err(e) => Err(NexoraGraphNodeError::Storage(e)),
            Ok(s) => Ok((pid, s)),
        },
    }
}

/// What reading node `node_id` gives.
pub open spec fn spec_get_node(pages: Seq<Seq<u8>>, f: NexoraFooter, node_id: u64) -> Result<GraphNodeRecord, NexoraGraphNodeError> {
    if node_id >= f.next_node_id {
        Err(NexoraGraphNodeError::NodeNotFound)
    } else {
        match spec_node_page_of(pages, f, node_id) {
            Err(e) => Err(e),
            Ok((pid, s)) => match spec_page_get_node(s, node_id) {
                None => Err(NexoraGraphNodeError::NodeNotFound),
                Some(r) => Ok(r),
            },
        }
    }
}

/// The record a new node starts with.
pub open spec fn new_node_record(node_id: u64, label_id: u32, properties: PackedPtr) -> GraphNodeRecord {
    GraphNodeRecord {
        node_id,
        first_out_edge: PackedPtr(NULL_PTR_VALUE),
        first_in_edge: PackedPtr(NULL_PTR_VALUE),
        properties,
        label_id,
        flags: FLAG_ACTIVE,
    }
}

/// Node page `s` with `node` appended in slot `count`.
pub open spec fn node_page_with(s: Seq<u8>, node: GraphNodeRecord) -> Seq<u8> {
    let count = node_record_count(s);
    put_u8(put_node_record(s, node_record_offset(count as int), node), PAGE_HEADER_SIZE as int, (count + 1) as u8)
}

/// A new node page `np` holding only `node`.
pub open spec fn new_node_page_bytes(np: u64, node: GraphNodeRecord) -> Seq<u8> {
    node_page_with(spec_node_page_init(zero_bytes(), np, SENTINEL_PAGE_ID), node)
}

/// The outcome of an operation on the store: its result, the pages, the
/// footer, and whether it marked the footer dirty.
pub type Outcome<T, E> = (Result<T, E>, Seq<Seq<u8>>, NexoraFooter, bool);

/// What inserting `node` (with id `node_id`) as the first record of a new
/// node page does.
pub open spec fn spec_insert_into_new_page(
    pages: Seq<Seq<u8>>,
    f: NexoraFooter,
    node: GraphNodeRecord,
    node_id: u64,
) -> Outcome<u64, NexoraGraphNodeError> {
    let (a, f1) = spec_allocate(pages, f);
    match a {
        Err(e) => (Err(NexoraGraphNodeError::Storage(e)), pages, f1, false),
        Ok(np) => {
            let old_last = f1.last_node_page;
            let p1 = pages_after_write(pages, np.0 as int, stamped(new_node_page_bytes(np.0, node)));
            let linked: Result<(Seq<Seq<u8>>, NexoraFooter), NexoraStorageError> = if old_last == SENTINEL_PAGE_ID {
                Ok((p1, NexoraFooter { first_node_page: np.0, ..f1 }))
            } else {
                match spec_read_page(p1, old_last, false) {
                    Err(e) => Err(e),
                    Ok(os) => Ok((pages_after_write(p1, old_last as int, stamped(put_u64(os, 8, np.0))), f1)),
                }
            };
            match linked {
                Err(e) => (Err(NexoraGraphNodeError::Storage(e)), p1, f1, true),
                Ok((p2, f2)) => {
                    let ix = spec_index_insert(p2, f2, (node_id / MAX_RECORD_COUNT as u64) as usize as int, np.0);
                    match ix.0 {
                        Err(e) => (Err(NexoraGraphNodeError::Storage(e)), ix.1, ix.2, true),
                        Ok(_) => (
                            Ok(node_id),
                            ix.1,
                            NexoraFooter { last_node_page: np.0, node_count: (ix.2.node_count + 1) as u64, ..ix.2 },
                            true,
                        ),
                    }
                },
            }
        },
    }
}

/// What inserting a node does.
pub open spec fn spec_insert_node(pages: Seq<Seq<u8>>, f: NexoraFooter, label_id: u32, properties: PackedPtr) -> Outcome<u64, NexoraGraphNodeError> {
    let node_id = f.next_node_id;
    let node = new_node_record(node_id, label_id, properties);
    if node_id % MAX_RECORD_COUNT as u64 == 0 {
        let r = spec_insert_into_new_page(pages, NexoraFooter { next_node_id: (node_id + 1) as u64, ..f }, node, node_id);
        (r.0, r.1, r.2, true)
    } else {
        let last = f.last_node_page;
        match spec_read_page(pages, last, true) {
            Err(e) => (Err(NexoraGraphNodeError::Storage(e)), pages, f, false),
            Ok(s) => if node_record_count(s) >= MAX_RECORD_COUNT {
                (Err(NexoraGraphNodeError::NoFreeSlot), pages, f, false)
            } else {
                (
                    Ok(node_id),
                    pages_after_write(pages, last as int, stamped(node_page_with(s, node))),
                    NexoraFooter { node_count: (f.node_count + 1) as u64, next_node_id: (node_id + 1) as u64, ..f },
                    true,
                )
            },
        }
    }
}

/// What changing one field of an active node record does: `field` is the
/// offset of the field in the record, `bytes_of` what the record bytes become.
pub open spec fn spec_update_node(
    pages: Seq<Seq<u8>>,
    f: NexoraFooter,
    node_id: u64,
    check_bound: bool,
    update: spec_fn(Seq<u8>, int) -> Seq<u8>,
) -> (Result<(), NexoraGraphNodeError>, Seq<Seq<u8>>) {
    if check_bound && node_id >= f.next_node_id {
        (Err(NexoraGraphNodeError::NodeNotFound), pages)
    } else {
        match spec_node_page_of(pages, f, node_id) {
            Err(e) => (Err(e), pages),
            Ok((pid, s)) => if !node_record_is_active(node_record(s, node_slot(node_id))) {
                (Err(NexoraGraphNodeError::NodeNotFound), pages)
            } else {
                (Ok(()), pages_after_write(pages, pid.0 as int, stamped(update(s, node_record_offset(node_slot(node_id))))))
            },
        }
    }
}

/// The record update that points a node at the property chain `ptr`.
pub open spec fn with_properties(ptr: PackedPtr) -> spec_fn(Seq<u8>, int) -> Seq<u8> {
    |s: Seq<u8>, o: int| put_u64(s, o + 24, ptr.0)
}

/// The record update that gives a node the label `label_id`.
pub open spec fn with_label(label_id: u32) -> spec_fn(Seq<u8>, int) -> Seq<u8> {
    |s: Seq<u8>, o: int| put_u32(s, o + 32, label_id)
}

/// The record update that points a node at `ptr` as its first outgoing edge.
pub open spec fn with_out_edge(ptr: PackedPtr) -> spec_fn(Seq<u8>, int) -> Seq<u8> {
    |s: Seq<u8>, o: int| put_u64(s, o + 8, ptr.0)
}

/// The record update that points a node at `ptr` as its first incoming edge.
pub open spec fn with_in_edge(ptr: PackedPtr) -> spec_fn(Seq<u8>, int) -> Seq<u8> {
    |s: Seq<u8>, o: int| put_u64(s, o + 16, ptr.0)
}

/// What deleting node `node_id` does to the pages, and whether it succeeds.
pub open spec fn spec_delete_node(pages: Seq<Seq<u8>>, f: NexoraFooter, node_id: u64) -> (Result<(), NexoraGraphNodeError>, Seq<Seq<u8>>) {
    if node_id >= f.next_node_id {
        (Err(NexoraGraphNodeError::NodeNotFound), pages)
    } else {
        match spec_node_page_of(pages, f, node_id) {
            Err(e) => (Err(e), pages),
            Ok((pid, s)) => if spec_page_get_node(s, node_id) is None {
                (Err(NexoraGraphNodeError::NodeNotFound), pages)
            } else {
                (Ok(()), pages_after_write(pages, pid.0 as int, stamped(put_u8(s, node_record_offset(node_slot(node_id)) + 36, FLAG_DELETED))))
            },
        }
    }
}

/// The cursor that starts a scan of all nodes.
pub open spec fn spec_node_scan_start(f: NexoraFooter) -> PackedPtr {
    if f.first_node_page == SENTINEL_PAGE_ID {
        PackedPtr(NULL_PTR_VALUE)
    } else {
        PackedPtr(packed(f.first_node_page, 0))
    }
}

/// The pointer to the first slot of the page after `s`, or null at the end.
pub open spec fn next_page_ptr(s: Seq<u8>) -> PackedPtr {
    if view_page_header(s).next_page_id == SENTINEL_PAGE_ID {
        PackedPtr(NULL_PTR_VALUE)
    } else {
        PackedPtr(packed(view_page_header(s).next_page_id, 0))
    }
}

/// The first active slot in `[from, count)` of node page `s`, if any.
pub open spec fn first_active_node_slot(s: Seq<u8>, from: int, count: int) -> Option<int>
    decreases count - from,
{
    if from >= count {
        None
    } else if node_record_is_active(node_record(s, from)) {
        Some(from)
    } else {
        first_active_node_slot(s, from + 1, count)
    }
}

/// What a scan step from `ptr` gives: the next active node and where the
/// cursor goes. A scan visits at most `fuel` pages; one that needs more has
/// gone round a loop of pages and stops with an error.
pub open spec fn spec_next_node(pages: Seq<Seq<u8>>, ptr: PackedPtr, fuel: nat) -> (Result<Option<GraphNodeRecord>, NexoraGraphNodeError>, PackedPtr)
    decreases fuel,
{
    if ptr_is_null(ptr) {
        (Ok(None), ptr)
    } else if fuel == 0 {
        (Err(NexoraGraphNodeError::Storage(NexoraStorageError::CorruptPage(ptr_page_id(ptr)))), ptr)
    } else {
        let pid = ptr_page_id(ptr);
        match spec_read_page(pages, pid, true) {
            Err(e) => (Err(NexoraGraphNodeError::Storage(e)), ptr),
            Ok(s) => if node_record_count(s) > MAX_RECORD_COUNT {
                (Err(NexoraGraphNodeError::Storage(NexoraStorageError::CorruptPage(pid))), ptr)
            } else {
                let count = node_record_count(s) as int;
                match first_active_node_slot(s, ptr_slot(ptr) as int, count) {
                    Some(slot) => (
                        Ok(Some(node_record(s, slot))),
                        if slot + 1 < count { PackedPtr(packed(pid, (slot + 1) as u8)) } else { next_page_ptr(s) },
                    ),
                    None => if ptr_is_null(next_page_ptr(s)) {
                        (Ok(None), next_page_ptr(s))
                    } else {
                        spec_next_node(pages, next_page_ptr(s), (fuel - 1) as nat)
                    },
                }
            },
        }
    }
}

/// A scan that has come to its end stays there: the cursor it leaves is
/// null, and stepping it again gives nothing, on any pages.
pub proof fn lemma_next_node_end_stays(pages: Seq<Seq<u8>>, ptr: PackedPtr, fuel: nat, later: Seq<Seq<u8>>, fuel2: nat)
    requires
        spec_next_node(pages, ptr, fuel).0 == Ok::<Option<GraphNodeRecord>, NexoraGraphNodeError>(None),
    ensures
        ptr_is_null(spec_next_node(pages, ptr, fuel).1),
        spec_next_node(later, spec_next_node(pages, ptr, fuel).1, fuel2)
            == (Ok::<Option<GraphNodeRecord>, NexoraGraphNodeError>(None), spec_next_node(pages, ptr, fuel).1),
    decreases fuel,
{
    if !ptr_is_null(ptr) && fuel > 0 {
        if let Ok(s) = spec_read_page(pages, ptr_page_id(ptr), true) {
            if !ptr_is_null(next_page_ptr(s)) {
                lemma_next_node_end_stays(pages, next_page_ptr(s), (fuel - 1) as nat, later, fuel2);
            }
        }
    }
}


/// The slot a search for an active node finds holds an active node.
proof fn lemma_first_active_node_slot(s: Seq<u8>, from: int, count: int)
    ensures
        first_active_node_slot(s, from, count) matches Some(i) ==> from <= i < count && node_record_is_active(node_record(s, i))
            && forall|k: int| from <= k < i ==> !node_record_is_active(#[trigger] node_record(s, k)),
        first_active_node_slot(s, from, count) is None ==> forall|k: int| from <= k < count ==> !node_record_is_active(
            #[trigger] node_record(s, k),
        ),
    decreases count - from,
{
    if from < count && !node_record_is_active(node_record(s, from)) {
        lemma_first_active_node_slot(s, from + 1, count);
    }
}

/// A scan yields only active nodes: deleted nodes are skipped.
pub proof fn lemma_next_node_is_active(pages: Seq<Seq<u8>>, ptr: PackedPtr, fuel: nat)
    ensures
        spec_next_node(pages, ptr, fuel).0 matches Ok(Some(r)) ==> node_record_is_active(r),
    decreases fuel,
{
    if !ptr_is_null(ptr) && fuel > 0 {
        let pid = ptr_page_id(ptr);
        if spec_read_page(pages, pid, true) is Ok {
            let s = pages[pid as int];
            lemma_first_active_node_slot(s, ptr_slot(ptr) as int, node_record_count(s) as int);
            lemma_next_node_is_active(pages, next_page_ptr(s), (fuel - 1) as nat);
        }
    }
}

/// Whether slot `j` of page `q` holds an active node at slot `from` of page
/// `pid` or past it, along the page chain from `pid`, within `fuel` pages.
pub open spec fn node_active_from(pages: Seq<Seq<u8>>, pid: u64, from: int, fuel: nat, q: u64, j: int) -> bool
    decreases fuel,
{
    fuel > 0 && pid != SENTINEL_PAGE_ID && pid < pages.len() && {
        ||| (q == pid && from <= j < node_record_count(pages[pid as int]) && node_record_is_active(node_record(pages[pid as int], j)))
        ||| node_active_from(pages, next_in_chain(pages, pid), 0, (fuel - 1) as nat, q, j)
    }
}

/// Whether slot `j` of page `q` holds an active node that a scan from
/// cursor `ptr` has still to give.
pub open spec fn node_scan_left(pages: Seq<Seq<u8>>, ptr: PackedPtr, fuel: nat, q: u64, j: int) -> bool {
    !ptr_is_null(ptr) && node_active_from(pages, ptr_page_id(ptr), ptr_slot(ptr) as int, fuel, q, j)
}

/// Whether a scan cursor is in order: null, or in a page of the store whose
/// chain ends within `fuel` pages, each of which checks and counts no more
/// records than a node page holds.
pub open spec fn node_cursor_ok(pages: Seq<Seq<u8>>, ptr: PackedPtr, fuel: nat) -> bool {
    !ptr_is_null(ptr) ==> {
        &&& ptr_page_id(ptr) != SENTINEL_PAGE_ID
        &&& chain_ends(pages, ptr_page_id(ptr), fuel)
        &&& forall|q: u64| #[trigger] on_chain(pages, ptr_page_id(ptr), q, fuel)
            ==> checksum_ok(pages[q as int]) && node_record_count(pages[q as int]) <= MAX_RECORD_COUNT
    }
}

/// An active node past a point of a chain lies on that chain.
proof fn lemma_node_active_on_chain(pages: Seq<Seq<u8>>, pid: u64, from: int, fuel: nat, q: u64, j: int)
    requires
        node_active_from(pages, pid, from, fuel, q, j),
    ensures
        on_chain(pages, pid, q, fuel),
    decreases fuel,
{
    if q != pid {
        lemma_node_active_on_chain(pages, next_in_chain(pages, pid), 0, (fuel - 1) as nat, q, j);
    }
}

/// On a chain that ends, more fuel finds the same active nodes.
proof fn lemma_node_active_fuel(pages: Seq<Seq<u8>>, pid: u64, from: int, k: nat, m: nat)
    requires
        chain_ends(pages, pid, k),
        k <= m,
    ensures
        forall|q: u64, j: int|
            #![trigger node_active_from(pages, pid, from, k, q, j)]
            #![trigger node_active_from(pages, pid, from, m, q, j)]
            node_active_from(pages, pid, from, k, q, j) == node_active_from(pages, pid, from, m, q, j),
    decreases k,
{
    if pid != SENTINEL_PAGE_ID {
        let nx = next_in_chain(pages, pid);
        lemma_node_active_fuel(pages, nx, 0, (k - 1) as nat, (m - 1) as nat);
        assert forall|q: u64, j: int| node_active_from(pages, pid, from, k, q, j) == node_active_from(pages, pid, from, m, q, j) by {
            assert(node_active_from(pages, nx, 0, (k - 1) as nat, q, j) == node_active_from(pages, nx, 0, (m - 1) as nat, q, j));
        }
    }
}

/// A scan step gives the first active node left from its cursor and moves
/// the cursor just past it: what is left to give is then exactly the active
/// nodes after it, all the nodes that were left but that one. A step that
/// gives nothing leaves a null cursor and had no active node left. So a
/// scan from the first node page gives every active node of the page chain
/// exactly once, in chain order and slot order, and then stops.
pub proof fn lemma_next_node_gives_next_active(pages: Seq<Seq<u8>>, ptr: PackedPtr, fuel: nat)
    requires
        pages.len() < 0xff_ffff_ffff_ffff,
        node_cursor_ok(pages, ptr, fuel),
    ensures
        ({
            let r = spec_next_node(pages, ptr, fuel);
            &&& r.0 is Ok
            &&& node_cursor_ok(pages, r.1, fuel)
            &&& r.0 == Ok::<Option<GraphNodeRecord>, NexoraGraphNodeError>(None) ==> ptr_is_null(r.1)
                && forall|q: u64, j: int| !#[trigger] node_scan_left(pages, ptr, fuel, q, j)
            &&& r.0 matches Ok(Some(rec)) ==> exists|q: u64, j: int| {
                &&& #[trigger] node_scan_left(pages, ptr, fuel, q, j)
                &&& rec == node_record(pages[q as int], j)
                &&& !node_active_from(pages, q, j + 1, fuel, q, j)
                &&& forall|q2: u64, j2: int| #[trigger] node_scan_left(pages, ptr, fuel, q2, j2)
                    == ((q2 == q && j2 == j) || node_active_from(pages, q, j + 1, fuel, q2, j2))
                &&& forall|q2: u64, j2: int| #[trigger] node_scan_left(pages, r.1, fuel, q2, j2)
                    == node_active_from(pages, q, j + 1, fuel, q2, j2)
            }
        }),
    decreases fuel,
{
    if !ptr_is_null(ptr) {
        let p = ptr_page_id(ptr);
        let from = ptr_slot(ptr) as int;
        assert(on_chain(pages, p, p, fuel));
        let s = pages[p as int];
        let count = node_record_count(s) as int;
        let nx = next_in_chain(pages, p);
        let k1 = (fuel - 1) as nat;
        assert(chain_ends(pages, nx, k1));
        lemma_chain_no_return(pages, p, fuel, k1);
        let np = next_page_ptr(s);
        if nx != SENTINEL_PAGE_ID {
            lemma_packed_ptr_roundtrip(nx, 0);
            lemma_chain_ends_more(pages, nx, k1, fuel);
            assert forall|q: u64| #[trigger] on_chain(pages, nx, q, fuel) implies checksum_ok(pages[q as int])
                && node_record_count(pages[q as int]) <= MAX_RECORD_COUNT by {
                lemma_on_chain_within(pages, nx, q, k1, fuel);
                assert(on_chain(pages, p, q, fuel));
            }
            assert(node_cursor_ok(pages, np, fuel));
            assert(node_cursor_ok(pages, np, k1)) by {
                assert forall|q: u64| #[trigger] on_chain(pages, nx, q, k1) implies checksum_ok(pages[q as int])
                    && node_record_count(pages[q as int]) <= MAX_RECORD_COUNT by {
                    assert(on_chain(pages, p, q, fuel));
                }
            }
        }
        lemma_node_active_fuel(pages, nx, 0, k1, fuel);
        lemma_first_active_node_slot(s, from, count);
        let r = spec_next_node(pages, ptr, fuel);
        match first_active_node_slot(s, from, count) {
            Some(j) => {
                assert(r.0 == Ok::<Option<GraphNodeRecord>, NexoraGraphNodeError>(Some(node_record(s, j))));
                if j + 1 < count {
                    lemma_packed_ptr_roundtrip(p, (j + 1) as u8);
                    assert(r.1 == PackedPtr(packed(p, (j + 1) as u8)));
                }
                assert forall|q2: u64, j2: int| #[trigger] node_scan_left(pages, ptr, fuel, q2, j2)
                    == ((q2 == p && j2 == j) || node_active_from(pages, p, j + 1, fuel, q2, j2)) by {}
                assert forall|q2: u64, j2: int| #[trigger] node_scan_left(pages, r.1, fuel, q2, j2)
                    == node_active_from(pages, p, j + 1, fuel, q2, j2) by {
                    if j + 1 < count {
                        assert(count <= MAX_RECORD_COUNT);
                        assert(ptr_page_id(r.1) == p);
                        assert(ptr_slot(r.1) as int == j + 1);
                        assert(!ptr_is_null(r.1));
                        assert(node_scan_left(pages, r.1, fuel, q2, j2) == node_active_from(pages, p, j + 1, fuel, q2, j2));
                    } else {
                        assert(r.1 == np);
                        if nx != SENTINEL_PAGE_ID {
                            assert(node_active_from(pages, nx, 0, k1, q2, j2) == node_active_from(pages, nx, 0, fuel, q2, j2));
                            assert(ptr_page_id(np) == nx && ptr_slot(np) == 0 && !ptr_is_null(np));
                            assert(node_scan_left(pages, r.1, fuel, q2, j2) == node_active_from(pages, nx, 0, fuel, q2, j2));
                            assert(node_active_from(pages, p, j + 1, fuel, q2, j2) == node_active_from(pages, nx, 0, k1, q2, j2));
                        } else {
                            assert(ptr_is_null(np));
                            assert(!node_active_from(pages, nx, 0, k1, q2, j2));
                            assert(!node_active_from(pages, p, j + 1, fuel, q2, j2));
                        }
                    }
                }
                if node_active_from(pages, nx, 0, k1, p, j) {
                    lemma_node_active_on_chain(pages, nx, 0, k1, p, j);
                }
                assert(!node_active_from(pages, p, j + 1, fuel, p, j));
                assert(node_scan_left(pages, ptr, fuel, p, j));
                assert(node_cursor_ok(pages, r.1, fuel));
                assert(r.0 is Ok);
            },
            None => {
                if nx != SENTINEL_PAGE_ID {
                    let ptr2 = np;
                    lemma_next_node_gives_next_active(pages, ptr2, k1);
                    let r2 = spec_next_node(pages, ptr2, k1);
                    assert(r == r2);
                    assert forall|q2: u64, j2: int| #[trigger] node_scan_left(pages, ptr, fuel, q2, j2)
                        == node_scan_left(pages, ptr2, k1, q2, j2) by {}
                    if r2.1 != PackedPtr(NULL_PTR_VALUE) && !ptr_is_null(r2.1) {
                        lemma_chain_ends_more(pages, ptr_page_id(r2.1), k1, fuel);
                        lemma_node_active_fuel(pages, ptr_page_id(r2.1), ptr_slot(r2.1) as int, k1, fuel);
                        assert forall|q: u64| #[trigger] on_chain(pages, ptr_page_id(r2.1), q, fuel) implies checksum_ok(pages[q as int])
                            && node_record_count(pages[q as int]) <= MAX_RECORD_COUNT by {
                            lemma_on_chain_within(pages, ptr_page_id(r2.1), q, k1, fuel);
                        }
                    }
                    if let Ok(Some(rec)) = r2.0 {
                        let (q, j) = choose|q: u64, j: int| {
                            &&& #[trigger] node_scan_left(pages, ptr2, k1, q, j)
                            &&& rec == node_record(pages[q as int], j)
                            &&& !node_active_from(pages, q, j + 1, k1, q, j)
                            &&& forall|q2: u64, j2: int| #[trigger] node_scan_left(pages, ptr2, k1, q2, j2)
                                == ((q2 == q && j2 == j) || node_active_from(pages, q, j + 1, k1, q2, j2))
                            &&& forall|q2: u64, j2: int| #[trigger] node_scan_left(pages, r2.1, k1, q2, j2)
                                == node_active_from(pages, q, j + 1, k1, q2, j2)
                        };
                        lemma_node_active_on_chain(pages, nx, 0, k1, q, j);
                        lemma_chain_ends_from(pages, nx, q, k1, k1);
                        lemma_node_active_fuel(pages, q, j + 1, k1, fuel);
                        assert forall|q2: u64, j2: int| #[trigger] node_scan_left(pages, ptr, fuel, q2, j2)
                            == ((q2 == q && j2 == j) || node_active_from(pages, q, j + 1, fuel, q2, j2)) by {
                            assert(node_scan_left(pages, ptr2, k1, q2, j2) == node_scan_left(pages, ptr, fuel, q2, j2));
                        }
                        assert forall|q2: u64, j2: int| #[trigger] node_scan_left(pages, r2.1, fuel, q2, j2)
                            == node_active_from(pages, q, j + 1, fuel, q2, j2) by {
                            assert(node_scan_left(pages, r2.1, k1, q2, j2) == node_active_from(pages, q, j + 1, k1, q2, j2));
                        }
                        assert(node_scan_left(pages, ptr, fuel, q, j));
                    }
                    if r2.0 == Ok::<Option<GraphNodeRecord>, NexoraGraphNodeError>(None) {
                        assert forall|q: u64, j: int| !#[trigger] node_scan_left(pages, ptr, fuel, q, j) by {
                            assert(!node_scan_left(pages, ptr2, k1, q, j));
                        }
                    }
                    assert(r.0 is Ok);
                    assert(node_cursor_ok(pages, r.1, fuel));
                } else {
                    assert(ptr_is_null(np));
                    assert(r == (Ok::<Option<GraphNodeRecord>, NexoraGraphNodeError>(None), np));
                    assert forall|q: u64, j: int| !#[trigger] node_scan_left(pages, ptr, fuel, q, j) by {
                        assert(!node_active_from(pages, nx, 0, k1, q, j));
                    }
                }
            },
        }
    }
}

/// Node page `s` with `node` appended reads that node back in the node's
/// slot, when the page counted exactly the records before it.
proof fn lemma_node_page_with_get(s: Seq<u8>, node: GraphNodeRecord)
    requires
        s.len() == PAGE_SIZE,
        node_record_count(s) as int == node_slot(node.node_id),
        node.flags == FLAG_ACTIVE,
    ensures
        checksum_ok(stamped(node_page_with(s, node))),
        stamped(node_page_with(s, node)).len() == PAGE_SIZE,
        spec_page_get_node(stamped(node_page_with(s, node)), node.node_id) == Some(node),
{
    let slot = node_slot(node.node_id);
    let o = node_record_offset(slot);
    let w = put_node_record(s, o, node);
    let x = put_u8(w, PAGE_HEADER_SIZE as int, (slot + 1) as u8);
    lemma_put_node_record(s, o, node);
    lemma_stamped_checksum_ok(x);
    assert(x == node_page_with(s, node));
    let t = stamped(x);
    assert forall|i: int| o <= i < o + 48 implies #[trigger] t[i] == w[i] by {
        assert(t[i] == x[i]);
    }
    lemma_read_same_range(t, w, o);
    lemma_read_same_range(t, w, o + 8);
    lemma_read_same_range(t, w, o + 16);
    lemma_read_same_range(t, w, o + 24);
    lemma_read_same_range(t, w, o + 32);
    assert(node_record(t, slot) == node_record(w, slot));
    assert(t[PAGE_HEADER_SIZE as int] == x[PAGE_HEADER_SIZE as int]);
}

/// Reading a node right after inserting it into the last node page gives
/// the record it was inserted with.
proof fn lemma_insert_node_same_page_then_get(pages: Seq<Seq<u8>>, f: NexoraFooter, label_id: u32, properties: PackedPtr)
    requires
        forall|i: int| 0 <= i < pages.len() ==> #[trigger] pages[i].len() == PAGE_SIZE,
        f.next_node_id % MAX_RECORD_COUNT as u64 != 0,
        f.next_node_id < u64::MAX,
        spec_node_page_id(pages, f, f.next_node_id) == Ok::<PageId, NexoraGraphNodeError>(PageId(f.last_node_page)),
        ({
            let k = ((f.next_node_id / MAX_RECORD_COUNT as u64) as usize as int / MAX_NODE_PAGE_INDEX_RECORD_COUNT as int) as nat;
            &&& walk_avoids(pages, f.first_page_index_page, k, f.last_node_page)
            &&& spec_dir_page_id(pages, f.first_page_index_page, k) != Ok::<PageId, NexoraStorageError>(PageId(f.last_node_page))
        }),
        node_record_count(pages[f.last_node_page as int]) as int == node_slot(f.next_node_id),
        spec_insert_node(pages, f, label_id, properties).0 is Ok,
    ensures
        ({
            let s = spec_insert_node(pages, f, label_id, properties);
            spec_get_node(s.1, s.2, f.next_node_id)
                == Ok::<GraphNodeRecord, NexoraGraphNodeError>(new_node_record(f.next_node_id, label_id, properties))
        }),
{
    let id = f.next_node_id;
    let last = f.last_node_page;
    let node = new_node_record(id, label_id, properties);
    let sp = pages[last as int];
    let data = stamped(node_page_with(sp, node));
    let s = spec_insert_node(pages, f, label_id, properties);
    let first = f.first_page_index_page;
    let pi = (id / MAX_RECORD_COUNT as u64) as usize as int;
    let k = (pi / MAX_NODE_PAGE_INDEX_RECORD_COUNT as int) as nat;
    lemma_node_page_with_get(sp, node);
    assert(s.1 == pages.update(last as int, data));
    lemma_walk_write_frame(pages, first, k, last, data, last);
    let d = spec_dir_page_id(pages, first, k)->Ok_0;
    assert(s.1[d.0 as int] == pages[d.0 as int]);
    assert(spec_index_lookup(s.1, first, pi) == spec_index_lookup(pages, first, pi));
    assert(spec_node_page_id(s.1, s.2, id) == Ok::<PageId, NexoraGraphNodeError>(PageId(last)));
    assert(spec_read_page(s.1, last, true) == Ok::<Seq<u8>, NexoraStorageError>(data));
}

/// Pointing one record of a node page at a first outgoing edge (`field` 8),
/// a first incoming edge (`field` 16) or a property chain (`field` 24), and
/// stamping the page, changes that field of that record and nothing else a
/// read of the page sees.
pub proof fn lemma_node_link_write(s: Seq<u8>, j: int, field: int, v: u64, i: int)
    requires
        s.len() == PAGE_SIZE,
        0 <= j < MAX_RECORD_COUNT,
        0 <= i < MAX_RECORD_COUNT,
        field == 8 || field == 16 || field == 24,
    ensures
        ({
            let t = stamped(put_u64(s, node_record_offset(j) + field, v));
            &&& checksum_ok(t)
            &&& t.len() == PAGE_SIZE
            &&& node_record_count(t) == node_record_count(s)
            &&& node_record(t, i) == if i == j && field == 8 {
                GraphNodeRecord { first_out_edge: PackedPtr(v), ..node_record(s, i) }
            } else if i == j && field == 16 {
                GraphNodeRecord { first_in_edge: PackedPtr(v), ..node_record(s, i) }
            } else if i == j && field == 24 {
                GraphNodeRecord { properties: PackedPtr(v), ..node_record(s, i) }
            } else {
                node_record(s, i)
            }
        }),
{
    let w = put_u64(s, node_record_offset(j) + field, v);
    let t = stamped(w);
    lemma_stamped_checksum_ok(w);
    let o = node_record_offset(i);
    assert(t[PAGE_HEADER_SIZE as int] == w[PAGE_HEADER_SIZE as int]);
    assert(t.subrange(o, o + 8) =~= w.subrange(o, o + 8));
    assert(t.subrange(o + 8, o + 16) =~= w.subrange(o + 8, o + 16));
    assert(t.subrange(o + 16, o + 24) =~= w.subrange(o + 16, o + 24));
    assert(t.subrange(o + 24, o + 32) =~= w.subrange(o + 24, o + 32));
    assert(t.subrange(o + 32, o + 36) =~= w.subrange(o + 32, o + 36));
    assert(t[o + 36] == w[o + 36]);
    assert(node_record(t, i) == node_record(w, i));
}

/// Whether looking up the page of node `node_id` in the index neither passes
/// through page `x` nor ends on it.
pub open spec fn node_lookup_clear(pages: Seq<Seq<u8>>, f: NexoraFooter, node_id: u64, x: u64) -> bool {
    let k = ((node_id / MAX_RECORD_COUNT as u64) as usize as int / MAX_NODE_PAGE_INDEX_RECORD_COUNT as int) as nat;
    &&& walk_avoids(pages, f.first_page_index_page, k, x)
    &&& spec_dir_page_id(pages, f.first_page_index_page, k) != Ok::<PageId, NexoraStorageError>(PageId(x))
}

/// A lookup that succeeds is clear of every page past the end of the store.
pub proof fn lemma_node_lookup_clear_beyond(pages: Seq<Seq<u8>>, f: NexoraFooter, node_id: u64, x: u64)
    requires
        spec_node_page_id(pages, f, node_id) is Ok,
        x >= pages.len(),
    ensures
        node_lookup_clear(pages, f, node_id, x),
{
    let k = ((node_id / MAX_RECORD_COUNT as u64) as usize as int / MAX_NODE_PAGE_INDEX_RECORD_COUNT as int) as nat;
    lemma_walk_ok_avoids_beyond(pages, f.first_page_index_page, k, x);
}

/// Writing a page that a successful node lookup does not read keeps the
/// lookup, and keeps every other lookup clear of the pages it was clear of.
pub proof fn lemma_node_page_id_frame(pages: Seq<Seq<u8>>, f: NexoraFooter, node_id: u64, x: u64, data: Seq<u8>)
    requires
        node_lookup_clear(pages, f, node_id, x),
        spec_node_page_id(pages, f, node_id) is Ok,
    ensures
        spec_node_page_id(pages_after_write(pages, x as int, data), f, node_id) == spec_node_page_id(pages, f, node_id),
        forall|y: u64| #[trigger] node_lookup_clear(pages_after_write(pages, x as int, data), f, node_id, y)
            == node_lookup_clear(pages, f, node_id, y),
{
    let k = ((node_id / MAX_RECORD_COUNT as u64) as usize as int / MAX_NODE_PAGE_INDEX_RECORD_COUNT as int) as nat;
    let first = f.first_page_index_page;
    let p2 = pages_after_write(pages, x as int, data);
    assert forall|y: u64| #[trigger] node_lookup_clear(p2, f, node_id, y) == node_lookup_clear(pages, f, node_id, y) by {
        lemma_walk_write_frame(pages, first, k, x, data, y);
    }
    lemma_walk_write_frame(pages, first, k, x, data, x);
    let d = spec_dir_page_id(pages, first, k)->Ok_0;
    assert(p2[d.0 as int] == pages[d.0 as int]);
}

/// Writing a page of the store that reading node `node_id` stays clear of
/// keeps what the read gives.
pub proof fn lemma_get_node_write_frame(pages: Seq<Seq<u8>>, f: NexoraFooter, node_id: u64, q: u64, d: Seq<u8>)
    requires
        q < pages.len(),
        node_lookup_clear(pages, f, node_id, q),
        spec_node_page_id(pages, f, node_id) != Ok::<PageId, NexoraGraphNodeError>(PageId(q)),
    ensures
        spec_get_node(pages_after_write(pages, q as int, d), f, node_id) == spec_get_node(pages, f, node_id),
{
    let k = ((node_id / MAX_RECORD_COUNT as u64) as usize as int / MAX_NODE_PAGE_INDEX_RECORD_COUNT as int) as nat;
    let first = f.first_page_index_page;
    let p2 = pages_after_write(pages, q as int, d);
    lemma_walk_write_frame(pages, first, k, q, d, q);
    if let Ok(dir) = spec_dir_page_id(pages, first, k) {
        assert(spec_read_page(p2, dir.0, true) == spec_read_page(pages, dir.0, true));
    }
    assert(spec_node_page_id(p2, f, node_id) == spec_node_page_id(pages, f, node_id));
    if let Ok(pid) = spec_node_page_id(pages, f, node_id) {
        assert(spec_read_page(p2, pid.0, true) == spec_read_page(pages, pid.0, true));
    }
}

/// Reading a node right after inserting it as the first node of a new node
/// page gives the record it was inserted with. The new node page, and a new
/// directory page when the index needs one, come off the free list or after
/// the last page.
proof fn lemma_insert_node_new_page_then_get(pages: Seq<Seq<u8>>, f: NexoraFooter, label_id: u32, properties: PackedPtr)
    requires
        forall|i: int| 0 <= i < pages.len() ==> #[trigger] pages[i].len() == PAGE_SIZE,
        f.next_node_id % MAX_RECORD_COUNT as u64 == 0,
        f.next_node_id < u64::MAX,
        chain_ends(pages, f.first_free_page, f.free_pages_count as nat),
        forall|q: u64| #[trigger] free_page(pages, f, q) ==> q != f.last_node_page
            && index_walk_clear(pages, f.first_page_index_page, (f.next_node_id / MAX_RECORD_COUNT as u64) as usize as int, q),
        pages.len() <= f.page_count,
        f.page_count + 2 < u64::MAX,
        f.last_node_page == SENTINEL_PAGE_ID || f.last_node_page < pages.len(),
        index_walk_clear(pages, f.first_page_index_page, (f.next_node_id / MAX_RECORD_COUNT as u64) as usize as int, f.last_node_page),
        spec_insert_node(pages, f, label_id, properties).0 is Ok,
    ensures
        ({
            let s = spec_insert_node(pages, f, label_id, properties);
            &&& spec_get_node(s.1, s.2, f.next_node_id)
                == Ok::<GraphNodeRecord, NexoraGraphNodeError>(new_node_record(f.next_node_id, label_id, properties))
            &&& s.1.len() >= pages.len()
            &&& forall|q: u64| q < pages.len() && s.1[q as int] != pages[q as int] ==> q == f.last_node_page
                || spec_dir_page_id(pages, f.first_page_index_page, node_index_add_walk(f.next_node_id))
                    == Ok::<PageId, NexoraStorageError>(PageId(q))
                || free_page(pages, f, q)
            &&& ({
                let np = spec_allocate(pages, NexoraFooter { next_node_id: (f.next_node_id + 1) as u64, ..f }).0->Ok_0.0;
                &&& spec_node_page_id(s.1, s.2, f.next_node_id) == Ok::<PageId, NexoraGraphNodeError>(PageId(np))
                &&& np < s.1.len()
                &&& s.1[np as int] == stamped(new_node_page_bytes(np, new_node_record(f.next_node_id, label_id, properties)))
                &&& s.2.last_node_page == np
            })
        }),
{
    let id = f.next_node_id;
    let node = new_node_record(id, label_id, properties);
    let fp = NexoraFooter { next_node_id: (id + 1) as u64, ..f };
    let (a, f1) = spec_allocate(pages, fp);
    let np = a->Ok_0.0;
    let bytes = stamped(new_node_page_bytes(np, node));
    let p1 = pages_after_write(pages, np as int, bytes);
    let old_last = f1.last_node_page;
    let first = f.first_page_index_page;
    let pi = (id / MAX_RECORD_COUNT as u64) as usize as int;
    let dir = pi / MAX_NODE_PAGE_INDEX_RECORD_COUNT as int;
    let k: nat = if pi % MAX_NODE_PAGE_INDEX_RECORD_COUNT as int == 0 && dir > 0 { (dir - 1) as nat } else { dir as nat };
    let ff = f.first_free_page;
    let c = f.free_pages_count as nat;
    let tail = next_in_chain(pages, ff);
    let init = spec_node_page_init(zero_bytes(), np, SENTINEL_PAGE_ID);
    lemma_put_page_header(zero_bytes(), NexoraPageHeader {
        page_id: np,
        next_page_id: SENTINEL_PAGE_ID,
        prev_page_id: SENTINEL_PAGE_ID,
        checksum: 0,
        page_type: page_type_code(PageType::Node),
        ..view_page_header(zero_bytes())
    });
    lemma_node_page_with_get(init, node);
    // the new node page comes off the free list, or after the last page
    if ff != SENTINEL_PAGE_ID {
        assert(np == ff && ff < pages.len());
        assert(free_page(pages, f, ff));
        assert(walk_avoids(pages, first, k, np));
        lemma_chain_no_return(pages, ff, c, (c - 1) as nat);
        if tail != SENTINEL_PAGE_ID {
            assert(chain_ends(pages, tail, (c - 1) as nat));
            assert(on_chain(pages, tail, tail, (c - 1) as nat));
            assert(free_page(pages, f, tail));
            assert(tail != ff);
        }
    } else {
        lemma_walk_avoids_beyond(pages, first, k, old_last, np);
    }
    // the pages after linking the new page
    let p2 = if old_last == SENTINEL_PAGE_ID {
        p1
    } else {
        pages_after_write(p1, old_last as int, stamped(put_u64(p1[old_last as int], 8, np)))
    };
    let f2 = if old_last == SENTINEL_PAGE_ID { NexoraFooter { first_node_page: np, ..f1 } } else { f1 };
    assert(old_last != np);
    lemma_walk_write_frame(pages, first, k, np, bytes, old_last);
    if old_last != SENTINEL_PAGE_ID {
        lemma_stamped_checksum_ok(put_u64(p1[old_last as int], 8, np));
        lemma_walk_write_frame(p1, first, k, old_last, stamped(put_u64(p1[old_last as int], 8, np)), old_last);
        assert(p2[np as int] == bytes);
    }
    assert(p2[np as int] == bytes);
    assert(p2.len() >= pages.len() && p2.len() > np);
    assert(p2.len() <= f2.page_count);
    assert(forall|i: int| 0 <= i < p2.len() ==> #[trigger] p2[i].len() == PAGE_SIZE);
    assert(spec_dir_page_id(p2, first, k) == spec_dir_page_id(pages, first, k));
    assert(walk_avoids(p2, first, k, old_last));
    let ix = spec_index_insert(p2, f2, pi, np);
    let np2 = spec_allocate(p2, f2).0->Ok_0.0;
    if pi % MAX_NODE_PAGE_INDEX_RECORD_COUNT as int == 0 {
        if dir > 0 {
            // the new directory page comes off the free list, or after the last page
            if f2.first_free_page != SENTINEL_PAGE_ID {
                assert(ff != SENTINEL_PAGE_ID && f2.first_free_page == tail && np2 == tail);
                assert(free_page(pages, f, tail));
                assert(walk_avoids(pages, first, k, np2));
                lemma_walk_write_frame(pages, first, k, np, bytes, np2);
                if old_last != SENTINEL_PAGE_ID {
                    lemma_walk_write_frame(p1, first, k, old_last, stamped(put_u64(p1[old_last as int], 8, np)), np2);
                }
            } else {
                assert(np2 == f2.page_count && np2 >= p2.len());
                lemma_walk_avoids_beyond(p2, first, k, old_last, np2);
            }
            assert(walk_avoids(p2, first, k, np2));
            assert(np2 != np);
            let ip = stamped(new_index_page_bytes(np2, np));
            let p3 = pages_after_write(p2, np2 as int, ip);
            lemma_walk_write_frame(p2, first, k, np2, ip, np2);
            assert(spec_dir_page_id(p3, first, k) == spec_dir_page_id(pages, first, k));
            assert(spec_dir_page_id(pages, first, k) is Ok);
            let d = spec_dir_page_id(pages, first, k)->Ok_0.0;
            lemma_walk_write_frame(pages, first, k, np, bytes, d);
            if old_last != SENTINEL_PAGE_ID {
                lemma_walk_write_frame(p1, first, k, old_last, stamped(put_u64(p1[old_last as int], 8, np)), d);
            }
            assert(walk_avoids(p2, first, k, d));
            assert(p3[np as int] == bytes);
        }
    } else {
        assert(spec_dir_page_id(pages, first, k) is Ok);
    }
    lemma_index_insert_then_lookup(p2, f2, pi, np);
    assert(ix.1[np as int] == bytes);
    let s = spec_insert_node(pages, f, label_id, properties);
    assert(s.1 == ix.1);
    assert(spec_node_page_id(s.1, s.2, id) == Ok::<PageId, NexoraGraphNodeError>(PageId(np)));
    assert(spec_read_page(s.1, np, true) == Ok::<Seq<u8>, NexoraStorageError>(bytes));
    assert(k == node_index_add_walk(id));
    assert forall|q: u64| q < pages.len() && s.1[q as int] != pages[q as int] implies q == f.last_node_page
        || spec_dir_page_id(pages, first, k) == Ok::<PageId, NexoraStorageError>(PageId(q))
        || free_page(pages, f, q) by {
        if p2[q as int] == pages[q as int] {
            assert(ix.1[q as int] != p2[q as int]);
        }
    }
}

/// The index walk to the directory page that adding node `node_id` to the
/// index starts from: the page before a new directory page, or the page
/// that takes the entry.
pub open spec fn node_index_add_walk(node_id: u64) -> nat {
    let pi = (node_id / MAX_RECORD_COUNT as u64) as usize as int;
    let dir = pi / MAX_NODE_PAGE_INDEX_RECORD_COUNT as int;
    if pi % MAX_NODE_PAGE_INDEX_RECORD_COUNT as int == 0 && dir > 0 { (dir - 1) as nat } else { dir as nat }
}

/// The index walk to the directory page that holds the entry of node
/// `node_id`.
pub open spec fn node_index_find_walk(node_id: u64) -> nat {
    ((node_id / MAX_RECORD_COUNT as u64) as usize as int / MAX_NODE_PAGE_INDEX_RECORD_COUNT as int) as nat
}

/// Whether a store is in order for adding a node: pages of full size, room
/// for another id, and a last node page that exists; when the new id goes
/// into the last node page, the index gives that page for the id's page
/// number, the page counts exactly the nodes before the id on it, and the
/// index lookup neither passes through nor ends on it; when the id starts a
/// new node page, a free list that ends within the count of free pages, a
/// page count that covers the pages with room for two more, and an index walk
/// that reads only pages of the store other than the last node page and the
/// free pages and ends on such a page.
pub open spec fn node_insert_ready(pages: Seq<Seq<u8>>, f: NexoraFooter) -> bool {
    &&& forall|i: int| 0 <= i < pages.len() ==> #[trigger] pages[i].len() == PAGE_SIZE
    &&& f.next_node_id < u64::MAX
    &&& f.next_node_id % MAX_RECORD_COUNT as u64 != 0 ==> {
        let k = node_index_find_walk(f.next_node_id);
        &&& f.last_node_page < pages.len()
        &&& spec_node_page_id(pages, f, f.next_node_id) == Ok::<PageId, NexoraGraphNodeError>(PageId(f.last_node_page))
        &&& walk_avoids(pages, f.first_page_index_page, k, f.last_node_page)
        &&& spec_dir_page_id(pages, f.first_page_index_page, k) != Ok::<PageId, NexoraStorageError>(PageId(f.last_node_page))
        &&& node_record_count(pages[f.last_node_page as int]) as int == node_slot(f.next_node_id)
    }
    &&& f.next_node_id % MAX_RECORD_COUNT as u64 == 0 ==> {
        &&& chain_ends(pages, f.first_free_page, f.free_pages_count as nat)
        &&& forall|q: u64| #[trigger] free_page(pages, f, q) ==> q != f.last_node_page
            && index_walk_clear(pages, f.first_page_index_page, (f.next_node_id / MAX_RECORD_COUNT as u64) as usize as int, q)
        &&& pages.len() <= f.page_count
        &&& f.page_count + 2 < u64::MAX
        &&& (f.last_node_page == SENTINEL_PAGE_ID || f.last_node_page < pages.len())
        &&& index_walk_clear(pages, f.first_page_index_page, (f.next_node_id / MAX_RECORD_COUNT as u64) as usize as int, f.last_node_page)
    }
}

/// Reading a node right after inserting it gives the record it was inserted
/// with, on a store in order for adding a node (see `node_insert_ready`).
pub proof fn lemma_insert_node_then_get(pages: Seq<Seq<u8>>, f: NexoraFooter, label_id: u32, properties: PackedPtr)
    requires
        node_insert_ready(pages, f),
        spec_insert_node(pages, f, label_id, properties).0 is Ok,
    ensures
        ({
            let s = spec_insert_node(pages, f, label_id, properties);
            spec_get_node(s.1, s.2, f.next_node_id)
                == Ok::<GraphNodeRecord, NexoraGraphNodeError>(new_node_record(f.next_node_id, label_id, properties))
        }),
{
    if f.next_node_id % MAX_RECORD_COUNT as u64 == 0 {
        lemma_insert_node_new_page_then_get(pages, f, label_id, properties);
    } else {
        lemma_insert_node_same_page_then_get(pages, f, label_id, properties);
    }
}

/// Reading a node right after pointing it at a property chain gives its
/// record with the new properties, for a node that reads back, on a store
/// whose lookup of the node is clear of the node's own page.
pub proof fn lemma_update_properties_then_get(pages: Seq<Seq<u8>>, f: NexoraFooter, node_id: u64, properties: PackedPtr)
    requires
        forall|i: int| 0 <= i < pages.len() ==> #[trigger] pages[i].len() == PAGE_SIZE,
        spec_get_node(pages, f, node_id) is Ok,
        node_lookup_clear(pages, f, node_id, spec_node_page_id(pages, f, node_id)->Ok_0.0),
        spec_update_node(pages, f, node_id, true, with_properties(properties)).0 is Ok,
    ensures
        spec_get_node(spec_update_node(pages, f, node_id, true, with_properties(properties)).1, f, node_id)
            == Ok::<GraphNodeRecord, NexoraGraphNodeError>(
                GraphNodeRecord { properties, ..spec_get_node(pages, f, node_id)->Ok_0 },
            ),
{
    let pid = spec_node_page_id(pages, f, node_id)->Ok_0.0;
    let s = pages[pid as int];
    let slot = node_slot(node_id);
    let data = stamped(put_u64(s, node_record_offset(slot) + 24, properties.0));
    let p2 = spec_update_node(pages, f, node_id, true, with_properties(properties)).1;
    assert(p2 == pages_after_write(pages, pid as int, data));
    lemma_node_page_id_frame(pages, f, node_id, pid, data);
    lemma_node_link_write(s, slot, 24, properties.0, slot);
    assert(p2[pid as int] == data);
}

/// Giving one record of a node page a label, and stamping the page, changes
/// that record's label and nothing else a read of the page sees.
proof fn lemma_node_label_write(s: Seq<u8>, j: int, v: u32, i: int)
    requires
        s.len() == PAGE_SIZE,
        0 <= j < MAX_RECORD_COUNT,
        0 <= i < MAX_RECORD_COUNT,
    ensures
        ({
            let t = stamped(put_u32(s, node_record_offset(j) + 32, v));
            &&& checksum_ok(t)
            &&& node_record_count(t) == node_record_count(s)
            &&& node_record(t, i) == if i == j { GraphNodeRecord { label_id: v, ..node_record(s, i) } } else { node_record(s, i) }
        }),
{
    let w = put_u32(s, node_record_offset(j) + 32, v);
    let t = stamped(w);
    lemma_stamped_checksum_ok(w);
    let o = node_record_offset(i);
    assert(t[PAGE_HEADER_SIZE as int] == w[PAGE_HEADER_SIZE as int]);
    assert(t.subrange(o, o + 8) =~= w.subrange(o, o + 8));
    assert(t.subrange(o + 8, o + 16) =~= w.subrange(o + 8, o + 16));
    assert(t.subrange(o + 16, o + 24) =~= w.subrange(o + 16, o + 24));
    assert(t.subrange(o + 24, o + 32) =~= w.subrange(o + 24, o + 32));
    assert(t.subrange(o + 32, o + 36) =~= w.subrange(o + 32, o + 36));
    assert(t[o + 36] == w[o + 36]);
    assert(node_record(t, i) == node_record(w, i));
    assert(w.subrange(o, o + 8) =~= s.subrange(o, o + 8));
    assert(w.subrange(o + 8, o + 16) =~= s.subrange(o + 8, o + 16));
    assert(w.subrange(o + 16, o + 24) =~= s.subrange(o + 16, o + 24));
    assert(w.subrange(o + 24, o + 32) =~= s.subrange(o + 24, o + 32));
    if i != j {
        assert(w.subrange(o + 32, o + 36) =~= s.subrange(o + 32, o + 36));
    }
}

/// Reading a node right after giving it a label gives its record with the
/// new label, for a node that reads back, on a store whose lookup of the
/// node is clear of the node's own page.
pub proof fn lemma_update_label_then_get(pages: Seq<Seq<u8>>, f: NexoraFooter, node_id: u64, label_id: u32)
    requires
        forall|i: int| 0 <= i < pages.len() ==> #[trigger] pages[i].len() == PAGE_SIZE,
        spec_get_node(pages, f, node_id) is Ok,
        node_lookup_clear(pages, f, node_id, spec_node_page_id(pages, f, node_id)->Ok_0.0),
        spec_update_node(pages, f, node_id, true, with_label(label_id)).0 is Ok,
    ensures
        spec_get_node(spec_update_node(pages, f, node_id, true, with_label(label_id)).1, f, node_id)
            == Ok::<GraphNodeRecord, NexoraGraphNodeError>(
                GraphNodeRecord { label_id, ..spec_get_node(pages, f, node_id)->Ok_0 },
            ),
{
    let pid = spec_node_page_id(pages, f, node_id)->Ok_0.0;
    let s = pages[pid as int];
    let slot = node_slot(node_id);
    let data = stamped(put_u32(s, node_record_offset(slot) + 32, label_id));
    let p2 = spec_update_node(pages, f, node_id, true, with_label(label_id)).1;
    assert(p2 == pages_after_write(pages, pid as int, data));
    lemma_node_page_id_frame(pages, f, node_id, pid, data);
    lemma_node_label_write(s, slot, label_id, slot);
    assert(p2[pid as int] == data);
}

/// Whether a store is ready for the node page after the one that node
/// `f.next_node_id` goes to: a free list that ends within the count of free
/// pages, a page count that covers the pages with room for two more, and an
/// index walk for the next page number that reads only pages of the store
/// other than the last node page and the free pages and ends on such a page.
pub open spec fn node_next_page_ready(pages: Seq<Seq<u8>>, f: NexoraFooter) -> bool {
    let pn = (f.next_node_id / MAX_RECORD_COUNT as u64 + 1) as usize as int;
    &&& chain_ends(pages, f.first_free_page, f.free_pages_count as nat)
    &&& forall|q: u64| #[trigger] free_page(pages, f, q) ==> q != f.last_node_page
        && index_walk_clear(pages, f.first_page_index_page, pn, q)
    &&& pages.len() <= f.page_count
    &&& f.page_count + 2 < u64::MAX
    &&& index_walk_clear(pages, f.first_page_index_page, pn, f.last_node_page)
}

/// Inserting a node that goes into the last node page keeps the store in
/// order for adding the next node: into the same page, or, when the page is
/// then full, into a new one; and, while the page has room, ready for the
/// page after it.
pub proof fn lemma_insert_node_same_page_keeps_ready(pages: Seq<Seq<u8>>, f: NexoraFooter, label_id: u32, properties: PackedPtr)
    requires
        node_insert_ready(pages, f),
        node_next_page_ready(pages, f),
        f.next_node_id % MAX_RECORD_COUNT as u64 != 0,
        f.next_node_id + 1 < u64::MAX,
        spec_insert_node(pages, f, label_id, properties).0 is Ok,
    ensures
        ({
            let s = spec_insert_node(pages, f, label_id, properties);
            &&& node_insert_ready(s.1, s.2)
            &&& (s.2.next_node_id % MAX_RECORD_COUNT as u64 != 0 ==> node_next_page_ready(s.1, s.2))
        }),
{
    let id = f.next_node_id;
    let last = f.last_node_page;
    let fi = f.first_page_index_page;
    let node = new_node_record(id, label_id, properties);
    let sp = pages[last as int];
    let data = stamped(node_page_with(sp, node));
    let p2 = pages_after_write(pages, last as int, data);
    let s = spec_insert_node(pages, f, label_id, properties);
    assert(s.1 == p2);
    let f2 = s.2;
    assert(f2 == NexoraFooter { node_count: (f.node_count + 1) as u64, next_node_id: (id + 1) as u64, ..f });
    lemma_node_page_with_get(sp, node);
    let x = put_u8(put_node_record(sp, node_record_offset(node_record_count(sp) as int), node), PAGE_HEADER_SIZE as int, (node_record_count(sp) + 1) as u8);
    assert(data == stamped(x));
    lemma_stamped_checksum_ok(x);
    assert(data[PAGE_HEADER_SIZE as int] == x[PAGE_HEADER_SIZE as int]);
    assert(node_record_count(data) == node_record_count(sp) + 1);
    let pi = (id / MAX_RECORD_COUNT as u64) as usize as int;
    let pn = (id / MAX_RECORD_COUNT as u64 + 1) as usize as int;
    // the page numbers of the next id
    let ii: int = id as int;
    let m: int = MAX_RECORD_COUNT as int;
    assert((ii + 1) % m != 0 ==> (ii + 1) / m == ii / m && (ii + 1) % m == ii % m + 1) by (nonlinear_arith)
        requires
            m > 0,
            ii >= 0,
    ;
    assert((ii + 1) % m == 0 ==> (ii + 1) / m == ii / m + 1) by (nonlinear_arith)
        requires
            m > 0,
            ii >= 0,
    ;
    // the lookup of the id is kept
    lemma_node_page_id_frame(pages, f, id, last, data);
    assert(node_lookup_clear(p2, f, id, last) == node_lookup_clear(pages, f, id, last));
    // the walk for the next page number is kept
    let dir2 = pn / MAX_NODE_PAGE_INDEX_RECORD_COUNT as int;
    let k2: nat = if pn % MAX_NODE_PAGE_INDEX_RECORD_COUNT as int == 0 && dir2 > 0 { (dir2 - 1) as nat } else { dir2 as nat };
    assert forall|y: u64| #[trigger] index_walk_clear(p2, fi, pn, y) == index_walk_clear(pages, fi, pn, y) by {
        lemma_walk_write_frame(pages, fi, k2, last, data, y);
        if let Ok(d) = spec_dir_page_id(pages, fi, k2) {
            lemma_walk_write_frame(pages, fi, k2, last, data, d.0);
        }
    }
    // the free list is kept
    let ff = f.first_free_page;
    let c = f.free_pages_count as nat;
    assert forall|q: u64| #[trigger] on_chain(pages, ff, q, c) implies q < pages.len() && p2[q as int] == pages[q as int] by {
        lemma_on_chain_in_store(pages, ff, q, c);
        assert(free_page(pages, f, q));
    }
    lemma_chain_same_pages(pages, p2, ff, c);
    assert forall|q: u64| #[trigger] free_page(p2, f2, q) == free_page(pages, f, q) by {}
    assert(spec_node_page_id(p2, f, id) == Ok::<PageId, NexoraGraphNodeError>(PageId(last)));
    let id2 = (id + 1) as u64;
    assert(p2[last as int] == data);
    if (ii + 1) % m != 0 {
        assert(node_index_find_walk(id2) == node_index_find_walk(id));
        assert(spec_node_page_id(p2, f2, id2) == spec_node_page_id(p2, f, id));
        assert(node_lookup_clear(p2, f, id, last));
        assert(walk_avoids(p2, fi, node_index_find_walk(id2), last));
        assert(node_record_count(p2[last as int]) as int == node_slot(id2));
        assert(node_next_page_ready(p2, f2));
    } else {
        assert((id2 / MAX_RECORD_COUNT as u64) as usize as int == pn);
        assert(index_walk_clear(p2, fi, pn, last));
        assert forall|q: u64| #[trigger] free_page(p2, f2, q) implies q != f2.last_node_page
            && index_walk_clear(p2, fi, (id2 / MAX_RECORD_COUNT as u64) as usize as int, q) by {
            assert(free_page(pages, f, q));
        }
    }
}

/// Inserting a node that starts a new node page keeps the store in order
/// for adding the next node, into that page, and ready for the page after
/// it.
pub proof fn lemma_insert_node_new_page_keeps_ready(pages: Seq<Seq<u8>>, f: NexoraFooter, label_id: u32, properties: PackedPtr)
    requires
        node_insert_ready(pages, f),
        f.next_node_id % MAX_RECORD_COUNT as u64 == 0,
        f.next_node_id + 1 < usize::MAX,
        f.page_count + 4 < u64::MAX,
        spec_insert_node(pages, f, label_id, properties).0 is Ok,
    ensures
        ({
            let s = spec_insert_node(pages, f, label_id, properties);
            &&& node_insert_ready(s.1, s.2)
            &&& node_next_page_ready(s.1, s.2)
        }),
{
    let id = f.next_node_id;
    let node = new_node_record(id, label_id, properties);
    let fp = NexoraFooter { next_node_id: (id + 1) as u64, ..f };
    let (a, f1) = spec_allocate(pages, fp);
    let np = a->Ok_0.0;
    let bytes = stamped(new_node_page_bytes(np, node));
    let p1 = pages_after_write(pages, np as int, bytes);
    let old_last = f1.last_node_page;
    let first = f.first_page_index_page;
    let pi = (id / MAX_RECORD_COUNT as u64) as usize as int;
    let dir = pi / MAX_NODE_PAGE_INDEX_RECORD_COUNT as int;
    let k: nat = if pi % MAX_NODE_PAGE_INDEX_RECORD_COUNT as int == 0 && dir > 0 { (dir - 1) as nat } else { dir as nat };
    let ff = f.first_free_page;
    let c = f.free_pages_count as nat;
    let tail = next_in_chain(pages, ff);
    lemma_insert_node_new_page_then_get(pages, f, label_id, properties);
    let init = spec_node_page_init(zero_bytes(), np, SENTINEL_PAGE_ID);
    lemma_put_page_header(zero_bytes(), NexoraPageHeader {
        page_id: np,
        next_page_id: SENTINEL_PAGE_ID,
        prev_page_id: SENTINEL_PAGE_ID,
        checksum: 0,
        page_type: page_type_code(PageType::Node),
        ..view_page_header(zero_bytes())
    });
    let x0 = put_node_record(init, node_record_offset(node_record_count(init) as int), node);
    let xb = put_u8(x0, PAGE_HEADER_SIZE as int, (node_record_count(init) + 1) as u8);
    assert(new_node_page_bytes(np, node) == xb);
    lemma_stamped_checksum_ok(xb);
    assert(bytes[PAGE_HEADER_SIZE as int] == xb[PAGE_HEADER_SIZE as int]);
    assert(node_record_count(init) == 0);
    assert(node_record_count(bytes) == 1);
    // the free list and where the pages come from
    if ff != SENTINEL_PAGE_ID {
        assert(np == ff && ff < pages.len());
        assert(free_page(pages, f, ff));
        lemma_chain_no_return(pages, ff, c, (c - 1) as nat);
        assert(chain_ends(pages, tail, (c - 1) as nat));
    } else {
        lemma_walk_avoids_beyond(pages, first, k, old_last, np);
    }
    let p2 = if old_last == SENTINEL_PAGE_ID {
        p1
    } else {
        pages_after_write(p1, old_last as int, stamped(put_u64(p1[old_last as int], 8, np)))
    };
    let f2 = if old_last == SENTINEL_PAGE_ID { NexoraFooter { first_node_page: np, ..f1 } } else { f1 };
    let ix = spec_index_insert(p2, f2, pi, np);
    let s = spec_insert_node(pages, f, label_id, properties);
    assert(s.1 == ix.1);
    assert(s.2 == NexoraFooter { last_node_page: np, node_count: (ix.2.node_count + 1) as u64, ..ix.2 });
    let sl = s.1;
    let g = s.2;
    let ii: int = id as int;
    let m: int = MAX_RECORD_COUNT as int;
    assert((ii + 1) / m == ii / m && (ii + 1) % m == 1) by (nonlinear_arith)
        requires
            m == 101,
            ii >= 0,
            ii % m == 0,
    ;
    let id2 = (id + 1) as u64;
    assert((id2 / MAX_RECORD_COUNT as u64) as usize as int == pi);
    assert(node_slot(id2) == 1);
    let pn = (id2 / MAX_RECORD_COUNT as u64 + 1) as usize as int;
    assert(pi == ii / m && pn == pi + 1) by (nonlinear_arith)
        requires
            m == 101,
            ii >= 0,
            ii + 1 < usize::MAX,
            pi == (id / MAX_RECORD_COUNT as u64) as usize as int,
            pn == (id2 / MAX_RECORD_COUNT as u64 + 1) as usize as int,
            id2 == ii + 1,
            id == ii,
            (ii + 1) / m == ii / m,
    ;
    let kf = node_index_find_walk(id2);
    assert(kf == dir);
    assert(spec_node_page_id(sl, g, id2) == spec_node_page_id(sl, g, id));
    let np2 = spec_allocate(p2, f2).0->Ok_0.0;
    let slot = pi % MAX_NODE_PAGE_INDEX_RECORD_COUNT as int;
    assert(sl[np as int] == bytes && np < sl.len());
    assert(g.last_node_page == np);
    assert(spec_node_page_id(sl, g, id2) == Ok::<PageId, NexoraGraphNodeError>(PageId(np)));
    // what is left of the free list
    let h1 = f1.first_free_page;
    let c1 = f1.free_pages_count as nat;
    if ff != SENTINEL_PAGE_ID {
        lemma_chain_pop(pages, ff, c);
        assert(h1 == tail && c1 == c - 1);
    }
    assert(chain_ends(pages, h1, c1));
    assert forall|q: u64| #[trigger] on_chain(pages, h1, q, c1) implies free_page(pages, f, q) && q != np by {}
    assert(f2.first_free_page == h1 && f2.free_pages_count == c1);
    assert forall|q: u64| #[trigger] on_chain(pages, h1, q, c1) implies q < pages.len() && p2[q as int] == pages[q as int] by {
        lemma_on_chain_in_store(pages, h1, q, c1);
    }
    lemma_chain_same_pages(pages, p2, h1, c1);
    let h = g.first_free_page;
    let cf = g.free_pages_count as nat;
    if slot == 0 {
        if h1 != SENTINEL_PAGE_ID {
            lemma_chain_pop(pages, h1, c1);
            assert(np2 == h1);
            assert(next_in_chain(p2, h1) == next_in_chain(pages, h1));
            assert(h == next_in_chain(pages, h1) && cf == c1 - 1);
        } else {
            assert(np2 == f2.page_count && np2 >= p2.len());
            assert(h == h1 && cf == c1);
        }
    } else {
        assert(h == h1 && cf == c1);
    }
    assert(chain_ends(pages, h, cf));
    assert forall|q: u64| #[trigger] on_chain(pages, h, q, cf) implies free_page(pages, f, q) && q != np
        && (slot == 0 ==> q != np2) by {
        if slot == 0 && h1 != SENTINEL_PAGE_ID {
            assert(on_chain(pages, h1, q, c1));
        }
    }
    // the sizes and the page count
    lemma_node_page_with_get(init, node);
    if old_last != SENTINEL_PAGE_ID {
        lemma_stamped_checksum_ok(put_u64(p1[old_last as int], 8, np));
    }
    assert(forall|i: int| 0 <= i < p2.len() ==> #[trigger] p2[i].len() == PAGE_SIZE);
    assert(p2.len() <= f2.page_count);
    // the walk the index insert takes is not changed by the two writes
    assert(index_walk_clear(pages, first, pi, old_last));
    assert forall|y: u64| y < pages.len() && p2[y as int] != pages[y as int]
        implies #[trigger] walk_avoids(pages, first, k, y) by {
        if y != old_last {
            assert(y == np);
        }
    }
    lemma_walk_same_pages(pages, p2, first, k, old_last);
    assert(spec_dir_page_id(p1, first, k) == spec_dir_page_id(pages, first, k)) by {
        assert forall|y: u64| y < pages.len() && p1[y as int] != pages[y as int]
            implies #[trigger] walk_avoids(pages, first, k, y) by {
            assert(y == np);
        }
        lemma_walk_same_pages(pages, p1, first, k, old_last);
    }
    if slot == 0 {
        if h1 != SENTINEL_PAGE_ID {
            assert(on_chain(pages, h1, h1, c1));
            assert(free_page(pages, f, np2));
            assert(walk_avoids(pages, first, k, np2));
        } else {
            lemma_walk_avoids_beyond(p2, first, k, old_last, np2);
        }
    }
    if !(slot == 0 && dir == 0) {
        assert(ix.0 is Ok);
        if slot == 0 {
            let nb = stamped(new_index_page_bytes(np2, np));
            assert(walk_avoids(p2, first, k, np2));
            lemma_walk_write_frame(p2, first, k, np2, nb, np2);
            assert(spec_dir_page_id(pages_after_write(p2, np2 as int, nb), first, k) is Ok);
        }
        assert(spec_dir_page_id(p2, first, k) is Ok);
        assert(spec_dir_page_id(pages, first, k) is Ok);
    }
    lemma_index_insert_then_lookup(p2, f2, pi, np);
    assert(sl.len() <= g.page_count);
    assert(g.page_count <= f.page_count + 2);
    // the free pages left are pages the insert did not touch
    assert forall|q: u64| #[trigger] on_chain(pages, h, q, cf) implies q < pages.len() && sl[q as int] == pages[q as int] by {
        lemma_on_chain_in_store(pages, h, q, cf);
        assert(free_page(pages, f, q));
        if sl[q as int] != pages[q as int] {
            assert(q == old_last || spec_dir_page_id(pages, first, k) == Ok::<PageId, NexoraStorageError>(PageId(q))
                || free_page(pages, f, q));
            if spec_dir_page_id(pages, first, k) == Ok::<PageId, NexoraStorageError>(PageId(q)) {
                assert(index_walk_clear(pages, first, pi, q));
            }
        }
    }
    lemma_chain_same_pages(pages, sl, h, cf);
    assert forall|q: u64| #[trigger] free_page(sl, g, q) == on_chain(pages, h, q, cf) by {}
    let fi2 = g.first_page_index_page;
    if slot == 0 && dir == 0 {
        // the new directory page is the first and only one
        assert(pi == 0);
        assert(fi2 == np2);
        assert(kf == 0);
        assert(spec_dir_page_id(sl, fi2, 0) == Ok::<PageId, NexoraStorageError>(PageId(np2)));
        assert(np2 != np);
        assert(np2 < sl.len());
        assert(pn == 1);
        assert forall|q: u64| #[trigger] free_page(sl, g, q) implies q != g.last_node_page
            && index_walk_clear(sl, fi2, pn, q) by {
            assert(on_chain(pages, h, q, cf));
        }
        assert(index_walk_clear(sl, fi2, pn, np));
    } else {
        assert(spec_dir_page_id(pages, first, k) is Ok);
        let d = spec_dir_page_id(pages, first, k)->Ok_0.0;
        assert(walk_avoids(pages, first, k, d) && d < pages.len() && d != old_last);
        assert(walk_avoids(pages, first, k, np) && d != np);
        if slot == 0 && h1 != SENTINEL_PAGE_ID {
            assert(free_page(pages, f, np2));
            assert(index_walk_clear(pages, first, pi, np2));
        } else if slot == 0 {
            lemma_walk_avoids_beyond(pages, first, k, old_last, np2);
        }
        assert forall|y: u64| y < pages.len() && sl[y as int] != pages[y as int]
            implies #[trigger] walk_avoids(pages, first, k, y) by {
            if !(y == old_last || spec_dir_page_id(pages, first, k) == Ok::<PageId, NexoraStorageError>(PageId(y))) {
                assert(free_page(pages, f, y));
            } else if y != old_last {
                assert(y == d);
            }
        }
        lemma_walk_same_pages(pages, sl, first, k, old_last);
        assert(spec_dir_page_id(sl, first, k) == Ok::<PageId, NexoraStorageError>(PageId(d)));
        assert(fi2 == first);
        assert forall|q: u64| #[trigger] free_page(sl, g, q) implies walk_avoids(sl, first, k, q) && q != d by {
            assert(on_chain(pages, h, q, cf));
            assert(free_page(pages, f, q));
            assert(index_walk_clear(pages, first, pi, q));
        }
        if slot == 0 {
            // a new directory page follows d: the walk for the id goes one
            // step further, to it
            assert(kf == k + 1);
            assert(spec_dir_page_id(sl, first, kf) == Ok::<PageId, NexoraStorageError>(PageId(np2)));
            lemma_walk_avoids_step(sl, first, k, np);
            lemma_walk_avoids_step(sl, first, k, np2);
            assert(np2 != np && np2 != d);
            assert(walk_avoids(sl, first, kf, np));
            assert(walk_avoids(sl, first, kf, np2));
            assert((pn % MAX_NODE_PAGE_INDEX_RECORD_COUNT as int != 0) || pn / MAX_NODE_PAGE_INDEX_RECORD_COUNT as int == 0) by (nonlinear_arith)
                requires
                    pn == pi + 1,
                    pi % 507 == 0,
                    pi >= 0,
            ;
            assert(index_walk_clear(sl, first, pn, np));
            assert forall|q: u64| #[trigger] free_page(sl, g, q) implies q != g.last_node_page
                && index_walk_clear(sl, fi2, pn, q) by {
                assert(on_chain(pages, h, q, cf));
                lemma_walk_avoids_step(sl, first, k, q);
            }
        } else {
            assert(kf == k);
            assert(walk_avoids(sl, first, kf, np));
            assert(spec_dir_page_id(sl, first, kf) != Ok::<PageId, NexoraStorageError>(PageId(np)));
            assert(index_walk_clear(sl, first, pn, np));
            assert forall|q: u64| #[trigger] free_page(sl, g, q) implies q != g.last_node_page
                && index_walk_clear(sl, fi2, pn, q) by {
                assert(on_chain(pages, h, q, cf));
            }
        }
    }
}

/// How many pages a node that starts a new node page takes: the node page,
/// and a directory page of the index when its entry starts one.
pub open spec fn new_page_allocations(node_id: u64) -> int {
    if ((node_id / MAX_RECORD_COUNT as u64) as usize) % MAX_NODE_PAGE_INDEX_RECORD_COUNT == 0 { 2 } else { 1 }
}

/// Whether the node part of a store is in order: ready for adding the next
/// node and, while the last node page has room, for the page after it.
pub open spec fn node_store_ok(pages: Seq<Seq<u8>>, f: NexoraFooter) -> bool {
    &&& node_insert_ready(pages, f)
    &&& f.next_node_id % MAX_RECORD_COUNT as u64 != 0 ==> node_next_page_ready(pages, f)
}

/// Inserting a node keeps the node part of a store in order, whether the
/// node goes into the last node page or starts a new one (taking free pages
/// first); node ids and page counts stay within machine limits.
pub proof fn lemma_insert_node_keeps_node_store_ok(pages: Seq<Seq<u8>>, f: NexoraFooter, label_id: u32, properties: PackedPtr)
    requires
        node_store_ok(pages, f),
        f.next_node_id + 1 < usize::MAX,
        f.page_count + 4 < u64::MAX,
        spec_insert_node(pages, f, label_id, properties).0 is Ok,
    ensures
        ({
            let s = spec_insert_node(pages, f, label_id, properties);
            node_store_ok(s.1, s.2)
        }),
{
    if f.next_node_id % MAX_RECORD_COUNT as u64 == 0 {
        lemma_insert_node_new_page_keeps_ready(pages, f, label_id, properties);
    } else {
        lemma_insert_node_same_page_keeps_ready(pages, f, label_id, properties);
    }
}

/// Writing a page that an index walk avoids keeps, for every page, whether
/// the walk is clear of it.
proof fn lemma_index_walk_clear_write_frame(pages: Seq<Seq<u8>>, first: u64, page_index: int, x: u64, d: Seq<u8>)
    requires
        index_walk_clear(pages, first, page_index, x),
        x < pages.len(),
    ensures
        forall|y: u64| #[trigger] index_walk_clear(pages_after_write(pages, x as int, d), first, page_index, y)
            == index_walk_clear(pages, first, page_index, y),
{
    let dir = page_index / MAX_NODE_PAGE_INDEX_RECORD_COUNT as int;
    let k: nat = if page_index % MAX_NODE_PAGE_INDEX_RECORD_COUNT as int == 0 && dir > 0 { (dir - 1) as nat } else { dir as nat };
    let p2 = pages_after_write(pages, x as int, d);
    assert forall|y: u64| #[trigger] index_walk_clear(p2, first, page_index, y) == index_walk_clear(pages, first, page_index, y) by {
        lemma_walk_write_frame(pages, first, k, x, d, y);
        if let Ok(dd) = spec_dir_page_id(pages, first, k) {
            lemma_walk_write_frame(pages, first, k, x, d, dd.0);
        }
    }
}

/// Freeing a page that the node part of a store does not use (a page of
/// the store not yet free, not the last node page, and off the index walks
/// for the next node and for the node page after it) keeps the node part
/// in order.
pub proof fn lemma_free_page_keeps_node_store_ok(pages: Seq<Seq<u8>>, f: NexoraFooter, x: u64)
    requires
        node_store_ok(pages, f),
        x < pages.len(),
        x != SENTINEL_PAGE_ID,
        !free_page(pages, f, x),
        f.free_pages_count < u64::MAX,
        x != f.last_node_page,
        f.next_node_id % MAX_RECORD_COUNT as u64 != 0 ==> node_lookup_clear(pages, f, f.next_node_id, x)
            && index_walk_clear(pages, f.first_page_index_page, (f.next_node_id / MAX_RECORD_COUNT as u64 + 1) as usize as int, x),
        f.next_node_id % MAX_RECORD_COUNT as u64 == 0 ==> index_walk_clear(
            pages,
            f.first_page_index_page,
            (f.next_node_id / MAX_RECORD_COUNT as u64) as usize as int,
            x,
        ),
    ensures
        ({
            let p2 = pages_after_write(pages, x as int, free_page_bytes(x, f.first_free_page));
            let f2 = NexoraFooter { first_free_page: x, free_pages_count: (f.free_pages_count + 1) as u64, ..f };
            node_store_ok(p2, f2)
        }),
{
    let ff = f.first_free_page;
    let c = f.free_pages_count as nat;
    let fb = free_page_bytes(x, ff);
    let p2 = pages_after_write(pages, x as int, fb);
    let f2 = NexoraFooter { first_free_page: x, free_pages_count: (f.free_pages_count + 1) as u64, ..f };
    let id = f.next_node_id;
    let fi = f.first_page_index_page;
    let last = f.last_node_page;
    let pi = (id / MAX_RECORD_COUNT as u64) as usize as int;
    let pn = (id / MAX_RECORD_COUNT as u64 + 1) as usize as int;
    lemma_put_page_header(Seq::new(PAGE_SIZE as nat, |i: int| 0u8), free_page_header(x, ff));
    assert(p2.len() == pages.len());
    assert(fb.len() == PAGE_SIZE);
    assert(next_in_chain(p2, x) == ff);
    // the free list gains the page in front
    assert(chain_ends(pages, ff, c));
    assert forall|q: u64| #[trigger] on_chain(pages, ff, q, c) implies q < pages.len() && p2[q as int] == pages[q as int] by {
        lemma_on_chain_in_store(pages, ff, q, c);
        assert(free_page(pages, f, q));
    }
    lemma_chain_same_pages(pages, p2, ff, c);
    assert(chain_ends(p2, x, c + 1));
    assert forall|q: u64| #[trigger] free_page(p2, f2, q) == (q == x || free_page(pages, f, q)) by {}
    if id % MAX_RECORD_COUNT as u64 != 0 {
        lemma_node_page_id_frame(pages, f, id, x, fb);
        assert(node_lookup_clear(pages, f, id, last));
        assert(node_lookup_clear(p2, f, id, last));
        assert(spec_node_page_id(p2, f2, id) == spec_node_page_id(p2, f, id));
        assert(p2[last as int] == pages[last as int]);
        assert(node_insert_ready(p2, f2));
        lemma_index_walk_clear_write_frame(pages, fi, pn, x, fb);
        assert forall|q: u64| #[trigger] free_page(p2, f2, q) implies q != f2.last_node_page
            && index_walk_clear(p2, fi, pn, q) by {
            if q != x {
                assert(free_page(pages, f, q));
            }
        }
        assert(node_next_page_ready(p2, f2));
    } else {
        lemma_index_walk_clear_write_frame(pages, fi, pi, x, fb);
        assert forall|q: u64| #[trigger] free_page(p2, f2, q) implies q != f2.last_node_page
            && index_walk_clear(p2, fi, pi, q) by {
            if q != x {
                assert(free_page(pages, f, q));
            }
        }
        assert(node_insert_ready(p2, f2));
    }
}

/// What inserting a node changes, on a store in order for adding a node:
/// of the pages the store had, only the last node page, the index's
/// directory page that the entry goes to or follows, and free pages taken
/// for a new page; and only node and allocation counters of the footer.
pub proof fn lemma_insert_node_writes(pages: Seq<Seq<u8>>, f: NexoraFooter, label_id: u32, properties: PackedPtr)
    requires
        node_insert_ready(pages, f),
        spec_insert_node(pages, f, label_id, properties).0 is Ok,
    ensures
        ({
            let s = spec_insert_node(pages, f, label_id, properties);
            &&& s.1.len() >= pages.len()
            &&& forall|q: u64| q < pages.len() && s.1[q as int] != pages[q as int] ==> q == f.last_node_page
                || (f.next_node_id % MAX_RECORD_COUNT as u64 == 0
                    && (spec_dir_page_id(pages, f.first_page_index_page, node_index_add_walk(f.next_node_id))
                        == Ok::<PageId, NexoraStorageError>(PageId(q)) || free_page(pages, f, q)))
            &&& s.2.first_label_page == f.first_label_page
            &&& s.2.first_string_page == f.first_string_page
            &&& s.2.label_pages_count == f.label_pages_count
        }),
{
    if f.next_node_id % MAX_RECORD_COUNT as u64 == 0 {
        lemma_insert_node_new_page_then_get(pages, f, label_id, properties);
    }
}

/// Whether the pages that adding node `f.next_node_id` reads and writes in
/// the node chain and the index (the last node page, the index walks to the
/// directory pages and those pages) lie off the string chain and the label
/// chain.
pub open spec fn node_pages_apart(pages: Seq<Seq<u8>>, f: NexoraFooter) -> bool {
    let kf = node_index_find_walk(f.next_node_id);
    let ka = node_index_add_walk(f.next_node_id);
    let fi = f.first_page_index_page;
    forall|q: u64|
        #![trigger on_chain(pages, f.first_string_page, q, pages.len() as nat)]
        #![trigger on_chain(pages, f.first_label_page, q, pages.len() as nat)]
        on_chain(pages, f.first_string_page, q, pages.len() as nat) || on_chain(pages, f.first_label_page, q, pages.len() as nat) ==> {
            &&& q != f.last_node_page
            &&& walk_avoids(pages, fi, kf, q)
            &&& spec_dir_page_id(pages, fi, kf) != Ok::<PageId, NexoraStorageError>(PageId(q))
            &&& walk_avoids(pages, fi, ka, q)
            &&& spec_dir_page_id(pages, fi, ka) != Ok::<PageId, NexoraStorageError>(PageId(q))
        }
}

/// A store in order for adding a node stays so through changes to pages of
/// its string and label chains and to pages past its end, when the node
/// pages and index pages lie off those chains.
pub proof fn lemma_node_insert_ready_frame(pages: Seq<Seq<u8>>, f: NexoraFooter, p2: Seq<Seq<u8>>, f2: NexoraFooter)
    requires
        node_insert_ready(pages, f),
        node_pages_apart(pages, f),
        forall|i: int| 0 <= i < p2.len() ==> #[trigger] p2[i].len() == PAGE_SIZE,
        pages.len() <= p2.len(),
        forall|q: u64| q < pages.len() && p2[q as int] != pages[q as int]
            ==> on_chain(pages, f.first_string_page, q, pages.len() as nat) || #[trigger] on_chain(pages, f.first_label_page, q, pages.len() as nat),
        f2.next_node_id == f.next_node_id,
        f2.last_node_page == f.last_node_page,
        f2.first_page_index_page == f.first_page_index_page,
        f2.first_free_page == f.first_free_page,
        f2.free_pages_count == f.free_pages_count,
        forall|q: u64| q < pages.len() && p2[q as int] != pages[q as int] ==> !#[trigger] free_page(pages, f, q),
        p2.len() <= f2.page_count,
        f2.page_count + 2 < u64::MAX,
    ensures
        node_insert_ready(p2, f2),
{
    let id = f.next_node_id;
    let fi = f.first_page_index_page;
    let last = f.last_node_page;
    let kf = node_index_find_walk(id);
    let ka = node_index_add_walk(id);
    let pi = (id / MAX_RECORD_COUNT as u64) as usize as int;
    if id % MAX_RECORD_COUNT as u64 != 0 {
        assert forall|y: u64| y < pages.len() && p2[y as int] != pages[y as int] implies #[trigger] walk_avoids(pages, fi, kf, y) by {
            assert(on_chain(pages, f.first_string_page, y, pages.len() as nat) || on_chain(pages, f.first_label_page, y, pages.len() as nat));
        }
        lemma_walk_same_pages(pages, p2, fi, kf, last);
        let d = spec_dir_page_id(pages, fi, kf)->Ok_0.0;
        if p2[d as int] != pages[d as int] {
            assert(on_chain(pages, f.first_string_page, d, pages.len() as nat) || on_chain(pages, f.first_label_page, d, pages.len() as nat));
        }
        if p2[last as int] != pages[last as int] {
            assert(on_chain(pages, f.first_string_page, last, pages.len() as nat) || on_chain(pages, f.first_label_page, last, pages.len() as nat));
        }
        assert(spec_index_lookup(p2, fi, pi) == spec_index_lookup(pages, fi, pi));
        assert(spec_node_page_id(p2, f2, id) == spec_node_page_id(pages, f, id));
    } else {
        assert forall|y: u64| y < pages.len() && p2[y as int] != pages[y as int] implies #[trigger] walk_avoids(pages, fi, ka, y) by {
            assert(on_chain(pages, f.first_string_page, y, pages.len() as nat) || on_chain(pages, f.first_label_page, y, pages.len() as nat));
        }
        lemma_walk_same_pages(pages, p2, fi, ka, last);
        assert(ka == (if pi % MAX_NODE_PAGE_INDEX_RECORD_COUNT as int == 0 && pi / MAX_NODE_PAGE_INDEX_RECORD_COUNT as int > 0 {
            (pi / MAX_NODE_PAGE_INDEX_RECORD_COUNT as int - 1) as nat
        } else {
            (pi / MAX_NODE_PAGE_INDEX_RECORD_COUNT as int) as nat
        }));
        assert(index_walk_clear(p2, fi, pi, last));
        let ff = f.first_free_page;
        let c = f.free_pages_count as nat;
        assert forall|q: u64| #[trigger] on_chain(pages, ff, q, c) implies q < pages.len() && p2[q as int] == pages[q as int] by {
            lemma_on_chain_in_store(pages, ff, q, c);
            assert(free_page(pages, f, q));
        }
        lemma_chain_same_pages(pages, p2, ff, c);
        assert forall|q: u64| #[trigger] free_page(p2, f2, q) implies q != f2.last_node_page
            && index_walk_clear(p2, fi, pi, q) by {
            assert(free_page(pages, f, q));
            lemma_walk_same_pages(pages, p2, fi, ka, q);
        }
    }
}

/// Reading a node right after deleting it finds nothing, on a store whose
/// index lookup for the node's page number neither reads the node's page nor
/// passes through it.
pub proof fn lemma_delete_node_then_get(pages: Seq<Seq<u8>>, f: NexoraFooter, node_id: u64)
    requires
        forall|i: int| 0 <= i < pages.len() ==> #[trigger] pages[i].len() == PAGE_SIZE,
        spec_delete_node(pages, f, node_id).0 is Ok,
        ({
            let k = ((node_id / MAX_RECORD_COUNT as u64) as usize as int / MAX_NODE_PAGE_INDEX_RECORD_COUNT as int) as nat;
            let pid = spec_node_page_id(pages, f, node_id)->Ok_0.0;
            &&& walk_avoids(pages, f.first_page_index_page, k, pid)
            &&& spec_dir_page_id(pages, f.first_page_index_page, k) != Ok::<PageId, NexoraStorageError>(PageId(pid))
        }),
    ensures
        spec_get_node(spec_delete_node(pages, f, node_id).1, f, node_id)
            == Err::<GraphNodeRecord, NexoraGraphNodeError>(NexoraGraphNodeError::NodeNotFound),
{
    let first = f.first_page_index_page;
    let pi = (node_id / MAX_RECORD_COUNT as u64) as usize as int;
    let k = (pi / MAX_NODE_PAGE_INDEX_RECORD_COUNT as int) as nat;
    let pid = spec_node_page_id(pages, f, node_id)->Ok_0.0;
    let sp = pages[pid as int];
    let o = node_record_offset(node_slot(node_id));
    let x = put_u8(sp, o + 36, FLAG_DELETED);
    let data = stamped(x);
    let p2 = spec_delete_node(pages, f, node_id).1;
    lemma_stamped_checksum_ok(x);
    assert(p2 == pages.update(pid as int, data));
    lemma_walk_write_frame(pages, first, k, pid, data, pid);
    let d = spec_dir_page_id(pages, first, k)->Ok_0;
    assert(p2[d.0 as int] == pages[d.0 as int]);
    assert(spec_index_lookup(p2, first, pi) == spec_index_lookup(pages, first, pi));
    assert(spec_read_page(p2, pid, true) == Ok::<Seq<u8>, NexoraStorageError>(data));
    assert(data[o + 36] == x[o + 36]);
    assert(node_record(data, node_slot(node_id)).flags == FLAG_DELETED);
}

pub struct GraphNodeStore<'a> {
    pub storage: &'a mut StorageManager,
}

impl<'a> GraphNodeStore<'a> {
    /// The storage manager as it stands now.
    pub open spec fn sm(&self) -> StorageManager {
        *self.storage
    }

    pub fn new(storage: &'a mut StorageManager) -> (r: Self)
        ensures
            *r.storage == *old(storage),
            *final(r.storage) == *final(storage),
    {
        GraphNodeStore { storage }
    }

    fn node_page_id(&mut self, node_id: u64) -> (r: Result<PageId, NexoraGraphNodeError>)
        requires
            old(self).sm().inv(),
        ensures
            final(self).sm() == old(self).sm(),
            *final(final(self).storage) == *final(old(self).storage),
            r == spec_node_page_id(old(self).sm().store@, old(self).sm().footer, node_id),
    {
        let page_index = (node_id / MAX_RECORD_COUNT as u64) as usize;
        let index = NodePageIndexStore::new(self.storage);
        match index.lookup(page_index) {
            Ok(p) => Ok(p),
            Err(e) => Err(NexoraGraphNodeError::Storage(e)),
        }
    }

    fn read_node_page(&self, page_id: PageId, verify: bool) -> (r: Result<GraphNodePage, NexoraGraphNodeError>)
        requires
            self.sm().inv(),
        ensures
            match spec_read_page(self.sm().store@, page_id.0, verify) {
                Err(e) => r == Err::<GraphNodePage, NexoraGraphNodeError>(NexoraGraphNodeError::Storage(e)),
                Ok(s) => r is Ok && r->Ok_0@ == s && r->Ok_0.inv(),
            },
    {
        let mut buf: Vec<u8> = Vec::new();
        match self.storage.store.read_page(page_id, &mut buf, verify) {
            Ok(()) => {},
            Err(e) => return Err(NexoraGraphNodeError::Storage(e)),
        }
        Ok(GraphNodePage::from_bytes(buf))
    }

    fn write_node_page(&mut self, page_id: PageId, page: &GraphNodePage)
        requires
            old(self).sm().inv(),
            page.inv(),
        ensures
            final(self).sm().inv(),
            *final(final(self).storage) == *final(old(self).storage),
            final(self).sm().store@ == pages_after_write(old(self).sm().store@, page_id.0 as int, stamped(page@)),
            final(self).sm().footer == old(self).sm().footer,
            final(self).sm().header == old(self).sm().header,
            final(self).sm().is_footer_dirty() == old(self).sm().is_footer_dirty(),
    {
        let _ = self.storage.store.write_page(page_id, page.as_bytes(), true);
    }

    /// Appends a node with the given label and properties; returns its id.
    pub fn insert_node(&mut self, label_id: u32, properties: PackedPtr) -> (r: Result<u64, NexoraGraphNodeError>)
        requires
            old(self).sm().inv(),
            old(self).sm().footer.next_node_id % MAX_RECORD_COUNT as u64 == 0
                ==> old(self).sm().can_allocate(new_page_allocations(old(self).sm().footer.next_node_id)),
            old(self).sm().footer.next_node_id < u64::MAX,
            old(self).sm().footer.node_count < u64::MAX,
        ensures
            final(self).sm().inv(),
            *final(final(self).storage) == *final(old(self).storage),
            final(self).sm().header == old(self).sm().header,
            ({
                let s = spec_insert_node(old(self).sm().store@, old(self).sm().footer, label_id, properties);
                &&& r == s.0
                &&& final(self).sm().store@ == s.1
                &&& final(self).sm().footer == s.2
                &&& final(self).sm().is_footer_dirty() == (old(self).sm().is_footer_dirty() || s.3)
            }),
    {
        let node_id = self.storage.footer.next_node_id;
        let node = GraphNodeRecord::new(node_id, label_id, properties);

        if node_id % MAX_RECORD_COUNT as u64 == 0 {
            self.storage.footer.next_node_id = node_id + 1;
            self.storage.mark_footer_dirty();
            return self.insert_into_new_page(node, node_id);
        }

        let last_page_id = PageId(self.storage.footer.last_node_page);
        let mut page = self.read_node_page(last_page_id, true)?;
        page.insert_node(node)?;
        self.write_node_page(last_page_id, &page);
        self.storage.footer.node_count = self.storage.footer.node_count + 1;
        self.storage.footer.next_node_id = node_id + 1;
        self.storage.mark_footer_dirty();
        Ok(node_id)
    }

    fn insert_into_new_page(&mut self, node: GraphNodeRecord, node_id: u64) -> (r: Result<u64, NexoraGraphNodeError>)
        requires
            old(self).sm().inv(),
            old(self).sm().can_allocate(new_page_allocations(node_id)),
            old(self).sm().footer.node_count < u64::MAX,
            old(self).sm().is_footer_dirty(),
        ensures
            final(self).sm().inv(),
            *final(final(self).storage) == *final(old(self).storage),
            final(self).sm().header == old(self).sm().header,
            final(self).sm().is_footer_dirty(),
            ({
                let s = spec_insert_into_new_page(old(self).sm().store@, old(self).sm().footer, node, node_id);
                &&& r == s.0
                &&& final(self).sm().store@ == s.1
                &&& final(self).sm().footer == s.2
            }),
    {
        let new_page_id = match self.storage.allocate_page() {
            Ok(p) => p,
            Err(e) => return Err(NexoraGraphNodeError::Storage(e)),
        };
        let old_last = self.storage.footer.last_node_page;

        let mut page = GraphNodePage::zeroed();
        assert(page@ =~= zero_bytes());
        page.init(new_page_id.as_u64(), SENTINEL_PAGE_ID);
        let _ = page.insert_node(node);
        self.write_node_page(new_page_id, &page);

        if old_last == SENTINEL_PAGE_ID {
            self.storage.footer.first_node_page = new_page_id.as_u64();
        } else {
            let mut old_page = self.read_node_page(PageId(old_last), false)?;
            old_page.set_next_page_id(new_page_id.as_u64());
            self.write_node_page(PageId(old_last), &old_page);
        }

        let page_index = (node_id / MAX_RECORD_COUNT as u64) as usize;
        let mut index = NodePageIndexStore::new(self.storage);
        match index.insert(page_index, new_page_id) {
            Ok(()) => {},
            Err(e) => return Err(NexoraGraphNodeError::Storage(e)),
        }

        self.storage.footer.last_node_page = new_page_id.as_u64();
        self.storage.footer.node_count = self.storage.footer.node_count + 1;
        self.storage.mark_footer_dirty();
        Ok(node_id)
    }
    pub fn get_node(&mut self, node_id: u64) -> (r: Result<GraphNodeRecord, NexoraGraphNodeError>)
        requires
            old(self).sm().inv(),
        ensures
            final(self).sm() == old(self).sm(),
            *final(final(self).storage) == *final(old(self).storage),
            r == spec_get_node(old(self).sm().store@, old(self).sm().footer, node_id),
    {
        if node_id >= self.storage.footer.next_node_id {
            return Err(NexoraGraphNodeError::NodeNotFound);
        }
        let page_id = self.node_page_id(node_id)?;
        let page = self.read_node_page(page_id, true)?;
        match page.get_node(node_id) {
            Some(rec) => Ok(rec),
            None => Err(NexoraGraphNodeError::NodeNotFound),
        }
    }

    /// Shared path of the updates: finds the active record of `node_id` and
    /// returns its page and slot.
    fn active_record_page(&mut self, node_id: u64, check_bound: bool) -> (r: Result<(PageId, GraphNodePage, usize), NexoraGraphNodeError>)
        requires
            old(self).sm().inv(),
        ensures
            final(self).sm() == old(self).sm(),
            *final(final(self).storage) == *final(old(self).storage),
            match r {
                Ok((pid, page, slot)) => {
                    &&& !(check_bound && node_id >= old(self).sm().footer.next_node_id)
                    &&& spec_node_page_of(old(self).sm().store@, old(self).sm().footer, node_id) == Ok::<(PageId, Seq<u8>), NexoraGraphNodeError>((pid, page@))
                    &&& page.inv()
                    &&& slot == node_slot(node_id)
                    &&& node_record_is_active(node_record(page@, slot as int))
                },
                Err(e) => spec_update_node(
                    old(self).sm().store@,
                    old(self).sm().footer,
                    node_id,
                    check_bound,
                    |s: Seq<u8>, o: int| s,
                ).0 == Err::<(), NexoraGraphNodeError>(e),
            },
    {
        if check_bound && node_id >= self.storage.footer.next_node_id {
            return Err(NexoraGraphNodeError::NodeNotFound);
        }
        let page_id = self.node_page_id(node_id)?;
        let slot = (node_id % MAX_RECORD_COUNT as u64) as usize;
        let page = self.read_node_page(page_id, true)?;
        if !page.record(slot).is_active() {
            return Err(NexoraGraphNodeError::NodeNotFound);
        }
        Ok((page_id, page, slot))
    }

    pub fn update_properties(&mut self, node_id: u64, properties: PackedPtr) -> (r: Result<(), NexoraGraphNodeError>)
        requires
            old(self).sm().inv(),
        ensures
            final(self).sm().inv(),
            *final(final(self).storage) == *final(old(self).storage),
            final(self).sm().header == old(self).sm().header,
            final(self).sm().footer == old(self).sm().footer,
            final(self).sm().is_footer_dirty() == old(self).sm().is_footer_dirty(),
            ({
                let s = spec_update_node(old(self).sm().store@, old(self).sm().footer, node_id, true, with_properties(properties));
                r == s.0 && final(self).sm().store@ == s.1
            }),
    {
        let (page_id, mut page, slot) = self.active_record_page(node_id, true)?;
        page.set_record_u64(slot, 24, properties.0);
        self.write_node_page(page_id, &page);
        Ok(())
    }

    pub fn update_label(&mut self, node_id: u64, label_id: u32) -> (r: Result<(), NexoraGraphNodeError>)
        requires
            old(self).sm().inv(),
        ensures
            final(self).sm().inv(),
            *final(final(self).storage) == *final(old(self).storage),
            final(self).sm().header == old(self).sm().header,
            final(self).sm().footer == old(self).sm().footer,
            final(self).sm().is_footer_dirty() == old(self).sm().is_footer_dirty(),
            ({
                let s = spec_update_node(old(self).sm().store@, old(self).sm().footer, node_id, true, with_label(label_id));
                r == s.0 && final(self).sm().store@ == s.1
            }),
    {
        let (page_id, mut page, slot) = self.active_record_page(node_id, true)?;
        page.set_record_label_id(slot, label_id);
        self.write_node_page(page_id, &page);
        Ok(())
    }

    /// Points node `node_id` at `ptr` as the head of its outgoing edges.
    pub fn update_out_edge(&mut self, node_id: u64, ptr: PackedPtr) -> (r: Result<(), NexoraGraphNodeError>)
        requires
            old(self).sm().inv(),
        ensures
            final(self).sm().inv(),
            *final(final(self).storage) == *final(old(self).storage),
            final(self).sm().header == old(self).sm().header,
            final(self).sm().footer == old(self).sm().footer,
            final(self).sm().is_footer_dirty() == old(self).sm().is_footer_dirty(),
            ({
                let s = spec_update_node(old(self).sm().store@, old(self).sm().footer, node_id, false, with_out_edge(ptr));
                r == s.0 && final(self).sm().store@ == s.1
            }),
    {
        let (page_id, mut page, slot) = self.active_record_page(node_id, false)?;
        page.set_record_u64(slot, 8, ptr.0);
        self.write_node_page(page_id, &page);
        Ok(())
    }

    /// Points node `node_id` at `ptr` as the head of its incoming edges.
    pub fn update_in_edge(&mut self, node_id: u64, ptr: PackedPtr) -> (r: Result<(), NexoraGraphNodeError>)
        requires
            old(self).sm().inv(),
        ensures
            final(self).sm().inv(),
            *final(final(self).storage) == *final(old(self).storage),
            final(self).sm().header == old(self).sm().header,
            final(self).sm().footer == old(self).sm().footer,
            final(self).sm().is_footer_dirty() == old(self).sm().is_footer_dirty(),
            ({
                let s = spec_update_node(old(self).sm().store@, old(self).sm().footer, node_id, false, with_in_edge(ptr));
                r == s.0 && final(self).sm().store@ == s.1
            }),
    {
        let (page_id, mut page, slot) = self.active_record_page(node_id, false)?;
        page.set_record_u64(slot, 16, ptr.0);
        self.write_node_page(page_id, &page);
        Ok(())
    }

    /// Tombstones node `node_id`.
    pub fn delete_node(&mut self, node_id: u64) -> (r: Result<(), NexoraGraphNodeError>)
        requires
            old(self).sm().inv(),
            spec_delete_node(old(self).sm().store@, old(self).sm().footer, node_id).0 is Ok
                ==> old(self).sm().footer.node_count > 0,
        ensures
            final(self).sm().inv(),
            *final(final(self).storage) == *final(old(self).storage),
            final(self).sm().header == old(self).sm().header,
            ({
                let s = spec_delete_node(old(self).sm().store@, old(self).sm().footer, node_id);
                &&& r == s.0
                &&& final(self).sm().store@ == s.1
                &&& final(self).sm().footer == if r is Ok {
                    NexoraFooter { node_count: (old(self).sm().footer.node_count - 1) as u64, ..old(self).sm().footer }
                } else {
                    old(self).sm().footer
                }
                &&& final(self).sm().is_footer_dirty() == (old(self).sm().is_footer_dirty() || r is Ok)
            }),
    {
        if node_id >= self.storage.footer.next_node_id {
            return Err(NexoraGraphNodeError::NodeNotFound);
        }
        let page_id = self.node_page_id(node_id)?;
        let mut page = self.read_node_page(page_id, true)?;
        page.delete_node(node_id)?;
        self.write_node_page(page_id, &page);
        self.storage.footer.node_count = self.storage.footer.node_count - 1;
        self.storage.mark_footer_dirty();
        Ok(())
    }

    /// A cursor at the start of the node page chain.
    pub fn scan_cursor(&self) -> (r: Result<RecordCursor, NexoraGraphNodeError>)
        ensures
            r == Ok::<RecordCursor, NexoraGraphNodeError>(RecordCursor { next_ptr: spec_node_scan_start(self.sm().footer) }),
    {
        let first_page = self.storage.footer.first_node_page;
        if first_page == SENTINEL_PAGE_ID {
            return Ok(RecordCursor::new(PackedPtr::null()));
        }
        Ok(RecordCursor::new(PackedPtr::new(first_page, 0)))
    }

    /// The next active node of a scan, advancing the cursor past it.
    pub fn cursor_next_node(&self, cursor: &mut RecordCursor) -> (r: Result<Option<GraphNodeRecord>, NexoraGraphNodeError>)
        requires
            self.sm().inv(),
        ensures
            ({
                let s = spec_next_node(self.sm().store@, old(cursor).next_ptr, self.sm().store@.len());
                &&& r == s.0
                &&& final(cursor).next_ptr == s.1
            }),
    {
        let ghost pages = self.sm().store@;
        let mut fuel = self.storage.store.page_count();
        loop
            invariant
                self.sm().inv(),
                pages == self.sm().store@,
                spec_next_node(pages, old(cursor).next_ptr, pages.len())
                    == spec_next_node(pages, cursor.next_ptr, fuel as nat),
            decreases fuel,
        {
            if cursor.is_done() {
                return Ok(None);
            }
            if fuel == 0 {
                return Err(NexoraGraphNodeError::Storage(NexoraStorageError::CorruptPage(cursor.ptr().page_id())));
            }
            let page_id_val = cursor.ptr().page_id();
            let slot_start = cursor.ptr().slot() as usize;
            let page = self.read_node_page(PageId(page_id_val), true)?;
            let record_count = page.graph_page_header().record_count as usize;
            if record_count > MAX_RECORD_COUNT {
                return Err(NexoraGraphNodeError::Storage(NexoraStorageError::CorruptPage(page_id_val)));
            }
            let mut slot = slot_start;
            while slot < record_count
                invariant
                    page.inv(),
                    self.sm().inv(),
                    pages == self.sm().store@,
                    spec_read_page(pages, page_id_val, true) == Ok::<Seq<u8>, NexoraStorageError>(page@),
                    page_id_val == ptr_page_id(cursor.next_ptr),
                    slot_start == ptr_slot(cursor.next_ptr),
                    !ptr_is_null(cursor.next_ptr),
                    fuel > 0,
                    spec_next_node(pages, old(cursor).next_ptr, pages.len())
                        == spec_next_node(pages, cursor.next_ptr, fuel as nat),
                    slot_start <= slot,
                    record_count == node_record_count(page@),
                    record_count <= MAX_RECORD_COUNT,
                    first_active_node_slot(page@, slot_start as int, record_count as int)
                        == first_active_node_slot(page@, slot as int, record_count as int),
                decreases record_count - slot,
            {
                {
                    let record = page.record(slot);
                    if record.is_active() {
                        let next_ptr = if slot + 1 < record_count {
                            PackedPtr::new(page_id_val, (slot + 1) as u8)
                        } else {
                            let next_page = page.page_header().next_page_id;
                            if next_page == SENTINEL_PAGE_ID {
                                PackedPtr::null()
                            } else {
                                PackedPtr::new(next_page, 0)
                            }
                        };
                        assert(first_active_node_slot(page@, slot as int, record_count as int) == Some(slot as int));
                        cursor.advance_to(next_ptr);
                        return Ok(Some(record));
                    }
                }
                slot = slot + 1;
            }
            let next_page = page.page_header().next_page_id;
            if next_page == SENTINEL_PAGE_ID {
                cursor.advance_to(PackedPtr::null());
                return Ok(None);
            }
            cursor.advance_to(PackedPtr::new(next_page, 0));
            fuel = fuel - 1;
        }
    }
}


} // verus!
