//! Edges: records in a chain of edge pages. Each edge is also a link in two
//! lists threaded through the records: the outgoing edges of its source node
//! and the incoming edges of its destination node, each headed by the node.
//!
//! Every walk along a chain is bounded. A walk over pages visits at most as
//! many pages as the store holds, and a walk along an edge list at most
//! `MAX_EDGE_RECORD_COUNT` records per page; a chain that needs more has gone
//! round a loop and the walk stops with `CorruptPage`. Links that point at a
//! slot past the last record slot of a page also give `CorruptPage`.
use vstd::prelude::*;

use crate::utils::codec::{group_codec, read_u64, put_u16, put_u32, put_u64};
use crate::utils::containers::bitsets::word_bit;
use crate::storage::constants::{PAGE_SIZE, SENTINEL_PAGE_ID};
use crate::storage::error::NexoraStorageError;
use crate::storage::models::{
    NexoraFooter, NexoraPageHeader, PageId, PageType, lemma_put_page_header, page_type_code, put_page_header, view_page_header,
};
use crate::storage::page_store::{
    chain_ends, checksum_ok, free_page, lemma_chain_ends_from, lemma_chain_ends_more, lemma_chain_no_return, lemma_chain_same_links, lemma_chain_same_pages, lemma_on_chain_in_store, lemma_on_chain_within, lemma_stamped_checksum_ok,
    next_in_chain, on_chain, pages_after_write, spec_read_page, stamped, zero_bytes,
};
use crate::storage::storage_manager::{StorageManager, spec_allocate};
use crate::graph::edge::constants::{EDGE_RECORD_SIZE, MAX_EDGE_RECORD_COUNT};
use crate::graph::edge::error::{NexoraGraphEdgeError, edge_err_of_node};
use crate::graph::node::error::NexoraGraphNodeError;
use crate::graph::node::page::{GraphNodeRecord, node_record, node_record_count, node_record_offset, node_slot};
use crate::index::page_index::node_page_index_store::{
    lemma_walk_ok_avoids_beyond, lemma_walk_same_pages, spec_dir_page_id, walk_avoids,
};
use crate::graph::edge::page::{
    GraphEdgePage, GraphEdgeRecord, edge_record, edge_record_offset, lowest_set_from, spec_edge_page_init,
    spec_find_edge_slot, spec_page_delete_slot, spec_page_insert_edge, lemma_lowest_set_from_masked, lemma_mask_below,
    lemma_clear_lowest, lemma_lowest_set_at, lemma_edge_page_same_tail, lemma_find_edge_none_empty, lemma_page_insert_edge_found,
    lemma_find_edge_from_same_ids, lemma_find_edge_slot_found, lemma_delete_slot_unfinds, lemma_link_write_keeps,
    edge_slot_occupied,
};
use crate::graph::node::graph_node_store::{
    GraphNodeStore, spec_get_node, spec_update_node, with_out_edge, with_in_edge, next_page_ptr, node_lookup_clear,
    lemma_node_link_write, lemma_node_lookup_clear_beyond, lemma_node_page_id_frame, spec_node_page_id,
    node_index_find_walk,
};
use crate::graph::record::types::{
    PackedPtr, RecordCursor, FLAG_ACTIVE, NULL_PTR_VALUE, lemma_packed_ptr_roundtrip, packed, ptr_page_id, ptr_slot, ptr_is_null,
};

verus! {

broadcast use group_codec;

/// The bound on a walk along an edge list in a store of `n` pages.
pub open spec fn edge_chain_fuel(n: nat) -> nat {
    if n * MAX_EDGE_RECORD_COUNT <= u64::MAX {
        (n * MAX_EDGE_RECORD_COUNT) as nat
    } else {
        u64::MAX as nat
    }
}

/// The first edge page of the chain from `pid` that holds a live record with
/// id `edge_id`: its id, its bytes and the slot.
pub open spec fn spec_find_edge(pages: Seq<Seq<u8>>, pid: u64, edge_id: u64, fuel: nat) -> Result<Option<(u64, Seq<u8>, int)>, NexoraGraphEdgeError>
    decreases fuel,
{
    if pid == SENTINEL_PAGE_ID {
        Ok(None)
    } else if fuel == 0 {
        Err(NexoraGraphEdgeError::Storage(NexoraStorageError::CorruptPage(pid)))
    } else {
        match spec_read_page(pages, pid, true) {
            Err(e) => Err(NexoraGraphEdgeError::Storage(e)),
            Ok(s) => match spec_find_edge_slot(s, edge_id) {
                Some(k) => Ok(Some((pid, s, k))),
                None => spec_find_edge(pages, view_page_header(s).next_page_id, edge_id, (fuel - 1) as nat),
            },
        }
    }
}

/// Where edge `edge_id` is stored: ids not yet handed out are not looked for.
pub open spec fn spec_locate_edge(pages: Seq<Seq<u8>>, f: NexoraFooter, edge_id: u64) -> Result<(u64, Seq<u8>, int), NexoraGraphEdgeError> {
    if edge_id >= f.next_edge_id {
        Err(NexoraGraphEdgeError::EdgeNotFound)
    } else {
        match spec_find_edge(pages, f.first_edge_page, edge_id, pages.len()) {
            Err(e) => Err(e),
            Ok(None) => Err(NexoraGraphEdgeError::EdgeNotFound),
            Ok(Some(x)) => Ok(x),
        }
    }
}

/// What reading edge `edge_id` gives.
pub open spec fn spec_get_edge(pages: Seq<Seq<u8>>, f: NexoraFooter, edge_id: u64) -> Result<GraphEdgeRecord, NexoraGraphEdgeError> {
    match spec_locate_edge(pages, f, edge_id) {
        Err(e) => Err(e),
        Ok((pid, s, k)) => Ok(edge_record(s, k)),
    }
}

/// What changing the record of edge `edge_id` does: `update` takes the page
/// bytes and the offset of the record.
pub open spec fn spec_update_edge(
    pages: Seq<Seq<u8>>,
    f: NexoraFooter,
    edge_id: u64,
    update: spec_fn(Seq<u8>, int) -> Seq<u8>,
) -> (Result<(), NexoraGraphEdgeError>, Seq<Seq<u8>>) {
    match spec_locate_edge(pages, f, edge_id) {
        Err(e) => (Err(e), pages),
        Ok((pid, s, k)) => (Ok(()), pages_after_write(pages, pid as int, stamped(update(s, edge_record_offset(k))))),
    }
}

/// The record update that points an edge at the property chain `ptr`.
pub open spec fn with_edge_properties(ptr: PackedPtr) -> spec_fn(Seq<u8>, int) -> Seq<u8> {
    |s: Seq<u8>, o: int| put_u16(put_u64(s, o + 48, ptr_page_id(ptr)), o + 60, ptr_slot(ptr) as u16)
}

/// The record update that sets the label and the weight bits of an edge.
pub open spec fn with_label_and_weight(label_id: u32, weight_bits: u64) -> spec_fn(Seq<u8>, int) -> Seq<u8> {
    |s: Seq<u8>, o: int| put_u64(put_u32(s, o + 56, label_id), o + 8, weight_bits)
}

/// The link to the next edge of a list: outgoing or incoming.
pub open spec fn edge_link(e: GraphEdgeRecord, outgoing: bool) -> PackedPtr {
    if outgoing {
        e.next_outgoing
    } else {
        e.next_incoming_address_packed
    }
}

/// Walking an edge list from `ptr` (with `prev` the link before it) to the
/// record with id `edge_id`: the link before that record, `None` when it is
/// the head.
pub open spec fn spec_chain_find(
    pages: Seq<Seq<u8>>,
    ptr: PackedPtr,
    prev: Option<PackedPtr>,
    edge_id: u64,
    outgoing: bool,
    fuel: nat,
) -> Result<Option<PackedPtr>, NexoraGraphEdgeError>
    decreases fuel,
{
    if ptr_is_null(ptr) {
        Err(NexoraGraphEdgeError::EdgeNotFound)
    } else if fuel == 0 {
        Err(NexoraGraphEdgeError::Storage(NexoraStorageError::CorruptPage(ptr_page_id(ptr))))
    } else {
        match spec_read_page(pages, ptr_page_id(ptr), true) {
            Err(e) => Err(NexoraGraphEdgeError::Storage(e)),
            Ok(s) => if ptr_slot(ptr) >= MAX_EDGE_RECORD_COUNT {
                Err(NexoraGraphEdgeError::Storage(NexoraStorageError::CorruptPage(ptr_page_id(ptr))))
            } else if edge_record(s, ptr_slot(ptr) as int).edge_id == edge_id {
                Ok(prev)
            } else {
                spec_chain_find(pages, edge_link(edge_record(s, ptr_slot(ptr) as int), outgoing), Some(ptr), edge_id, outgoing, (fuel - 1) as nat)
            },
        }
    }
}

/// The head of a node's outgoing or incoming list.
pub open spec fn node_list_head(pages: Seq<Seq<u8>>, f: NexoraFooter, node_id: u64, outgoing: bool) -> Result<PackedPtr, NexoraGraphEdgeError> {
    match spec_get_node(pages, f, node_id) {
        Err(e) => Err(edge_err_of_node(e)),
        Ok(rec) => Ok(if outgoing { rec.first_out_edge } else { rec.first_in_edge }),
    }
}

/// What unlinking edge `edge_id` from the list of node `node_id` does, with
/// `next` the link that takes its place.
pub open spec fn spec_remove_from_chain(
    pages: Seq<Seq<u8>>,
    f: NexoraFooter,
    node_id: u64,
    edge_id: u64,
    next: PackedPtr,
    outgoing: bool,
) -> (Result<(), NexoraGraphEdgeError>, Seq<Seq<u8>>) {
    match node_list_head(pages, f, node_id, outgoing) {
        Err(e) => (Err(e), pages),
        Ok(head) => match spec_chain_find(pages, head, None, edge_id, outgoing, edge_chain_fuel(pages.len())) {
            Err(e) => (Err(e), pages),
            Ok(None) => {
                let u = spec_update_node(pages, f, node_id, false, if outgoing { with_out_edge(next) } else { with_in_edge(next) });
                match u.0 {
                    Err(e) => (Err(edge_err_of_node(e)), u.1),
                    Ok(_) => (Ok(()), u.1),
                }
            },
            Ok(Some(prev)) => match spec_read_page(pages, ptr_page_id(prev), true) {
                Err(e) => (Err(NexoraGraphEdgeError::Storage(e)), pages),
                Ok(ps) => (
                    Ok(()),
                    pages_after_write(
                        pages,
                        ptr_page_id(prev) as int,
                        stamped(put_u64(ps, edge_record_offset(ptr_slot(prev) as int) + if outgoing { 32int } else { 40int }, next.0)),
                    ),
                ),
            },
        },
    }
}

/// What deleting edge `edge_id` does: the record is tombstoned, then unlinked
/// from its source's outgoing list and its destination's incoming list.
pub open spec fn spec_delete_edge(pages: Seq<Seq<u8>>, f: NexoraFooter, edge_id: u64) -> (Result<(), NexoraGraphEdgeError>, Seq<Seq<u8>>, NexoraFooter, bool) {
    match spec_locate_edge(pages, f, edge_id) {
        Err(e) => (Err(e), pages, f, false),
        Ok((pid, s, k)) => {
            let e = edge_record(s, k);
            let p1 = pages_after_write(pages, pid as int, stamped(spec_page_delete_slot(s, k)));
            let o = spec_remove_from_chain(p1, f, e.src_node_id, edge_id, e.next_outgoing, true);
            match o.0 {
                Err(err) => (Err(err), o.1, f, false),
                Ok(_) => {
                    let i = spec_remove_from_chain(o.1, f, e.dst_node_id, edge_id, e.next_incoming_address_packed, false);
                    match i.0 {
                        Err(err) => (Err(err), i.1, f, false),
                        Ok(_) => (Ok(()), i.1, NexoraFooter { edge_count: (f.edge_count - 1) as u64, ..f }, true),
                    }
                },
            }
        },
    }
}

/// The record a new edge starts with.
pub open spec fn new_edge_record(
    edge_id: u64,
    src_node_id: u64,
    dst_node_id: u64,
    label_id: u32,
    weight_bits: u64,
    next_outgoing: PackedPtr,
    next_incoming: PackedPtr,
) -> GraphEdgeRecord {
    GraphEdgeRecord {
        edge_id,
        weight_bits,
        src_node_id,
        dst_node_id,
        next_outgoing,
        next_incoming_address_packed: next_incoming,
        property_page_id: SENTINEL_PAGE_ID,
        label_id,
        property_slot: 0,
        flags: FLAG_ACTIVE,
    }
}

/// What storing `edge` in a new edge page at the front of the chain does.
pub open spec fn spec_edge_insert_into_new_page(
    pages: Seq<Seq<u8>>,
    f: NexoraFooter,
    edge: GraphEdgeRecord,
) -> (Result<(PageId, usize), NexoraGraphEdgeError>, Seq<Seq<u8>>, NexoraFooter, bool) {
    let (a, f1) = spec_allocate(pages, f);
    match a {
        Err(e) => (Err(NexoraGraphEdgeError::Storage(e)), pages, f1, false),
        Ok(np) => match spec_page_insert_edge(spec_edge_page_init(zero_bytes(), np.0, f1.first_edge_page), edge) {
            Err(e) => (Err(e), pages, f1, true),
            Ok((slot, s)) => (
                Ok((np, slot)),
                pages_after_write(pages, np.0 as int, stamped(s)),
                NexoraFooter { first_edge_page: np.0, ..f1 },
                true,
            ),
        },
    }
}

/// What storing `edge` does: the first page of the chain from `pid` with a
/// free slot takes it, or a new page when none has one.
pub open spec fn spec_edge_insert_into_page(
    pages: Seq<Seq<u8>>,
    f: NexoraFooter,
    edge: GraphEdgeRecord,
    pid: u64,
    fuel: nat,
) -> (Result<(PageId, usize), NexoraGraphEdgeError>, Seq<Seq<u8>>, NexoraFooter, bool)
    decreases fuel,
{
    if pid == SENTINEL_PAGE_ID {
        spec_edge_insert_into_new_page(pages, f, edge)
    } else if fuel == 0 {
        (Err(NexoraGraphEdgeError::Storage(NexoraStorageError::CorruptPage(pid))), pages, f, false)
    } else {
        match spec_read_page(pages, pid, true) {
            Err(e) => (Err(NexoraGraphEdgeError::Storage(e)), pages, f, false),
            Ok(s) => match spec_page_insert_edge(s, edge) {
                Ok((slot, s2)) => (Ok((PageId(pid), slot)), pages_after_write(pages, pid as int, stamped(s2)), f, false),
                Err(_) => spec_edge_insert_into_page(pages, f, edge, view_page_header(s).next_page_id, (fuel - 1) as nat),
            },
        }
    }
}

/// What inserting an edge from `src` to `dst` does: the new edge becomes the
/// head of the source's outgoing list and of the destination's incoming list.
pub open spec fn spec_insert_edge(
    pages: Seq<Seq<u8>>,
    f: NexoraFooter,
    src: u64,
    dst: u64,
    label_id: u32,
    weight_bits: u64,
) -> (Result<u64, NexoraGraphEdgeError>, Seq<Seq<u8>>, NexoraFooter, bool) {
    let edge_id = f.next_edge_id;
    match spec_get_node(pages, f, src) {
        Err(e) => (Err(edge_err_of_node(e)), pages, f, false),
        Ok(srec) => match spec_get_node(pages, f, dst) {
            Err(e) => (Err(edge_err_of_node(e)), pages, f, false),
            Ok(drec) => {
                let edge = new_edge_record(edge_id, src, dst, label_id, weight_bits, srec.first_out_edge, drec.first_in_edge);
                let ins = spec_edge_insert_into_page(pages, f, edge, f.first_edge_page, pages.len());
                match ins.0 {
                    Err(e) => (Err(e), ins.1, ins.2, ins.3),
                    Ok((pid, slot)) => {
                        let ptr = PackedPtr(packed(pid.0, slot as u8));
                        let u1 = spec_update_node(ins.1, ins.2, src, false, with_out_edge(ptr));
                        match u1.0 {
                            Err(e) => (Err(edge_err_of_node(e)), u1.1, ins.2, ins.3),
                            Ok(_) => {
                                let u2 = spec_update_node(u1.1, ins.2, dst, false, with_in_edge(ptr));
                                match u2.0 {
                                    Err(e) => (Err(edge_err_of_node(e)), u2.1, ins.2, ins.3),
                                    Ok(_) => (
                                        Ok(edge_id),
                                        u2.1,
                                        NexoraFooter {
                                            next_edge_id: (edge_id + 1) as u64,
                                            edge_count: (ins.2.edge_count + 1) as u64,
                                            ..ins.2
                                        },
                                        true,
                                    ),
                                }
                            },
                        }
                    },
                }
            },
        },
    }
}

/// A search along the edge chain gives the same in a store of the same size
/// whose pages on the chain are the same.
proof fn lemma_find_edge_frame(pages: Seq<Seq<u8>>, p2: Seq<Seq<u8>>, pid: u64, edge_id: u64, fuel: nat)
    requires
        pages.len() == p2.len(),
        forall|q: u64| #[trigger] on_chain(pages, pid, q, fuel) ==> p2[q as int] == pages[q as int],
    ensures
        spec_find_edge(p2, pid, edge_id, fuel) == spec_find_edge(pages, pid, edge_id, fuel),
    decreases fuel,
{
    if pid != SENTINEL_PAGE_ID && fuel > 0 && pid < pages.len() {
        assert(on_chain(pages, pid, pid, fuel));
        let y = next_in_chain(pages, pid);
        assert forall|q: u64| #[trigger] on_chain(pages, y, q, (fuel - 1) as nat) implies p2[q as int] == pages[q as int] by {
            assert(on_chain(pages, pid, q, fuel));
        }
        lemma_find_edge_frame(pages, p2, y, edge_id, (fuel - 1) as nat);
    }
}

/// A search that found an edge in page `pid` finds it again, in the same
/// slot, after that page alone is replaced by a checked page that finds it
/// there too.
proof fn lemma_find_edge_after_rewrite(
    pages: Seq<Seq<u8>>,
    x: u64,
    edge_id: u64,
    fuel: nat,
    pid: u64,
    k: int,
    t: Seq<u8>,
)
    requires
        spec_find_edge(pages, x, edge_id, fuel)
            == Ok::<Option<(u64, Seq<u8>, int)>, NexoraGraphEdgeError>(Some((pid, pages[pid as int], k))),
        pid < pages.len(),
        checksum_ok(t),
        spec_find_edge_slot(t, edge_id) == Some(k),
    ensures
        spec_find_edge(pages.update(pid as int, t), x, edge_id, fuel)
            == Ok::<Option<(u64, Seq<u8>, int)>, NexoraGraphEdgeError>(Some((pid, t, k))),
    decreases fuel,
{
    let p2 = pages.update(pid as int, t);
    if x != pid {
        let s = pages[x as int];
        assert(p2[x as int] == s);
        lemma_find_edge_after_rewrite(pages, view_page_header(s).next_page_id, edge_id, (fuel - 1) as nat, pid, k, t);
    }
}

/// Reading an edge right after pointing it at a property chain gives its
/// record with the new property pointer.
pub proof fn lemma_update_edge_properties_then_get(pages: Seq<Seq<u8>>, f: NexoraFooter, edge_id: u64, ptr: PackedPtr)
    requires
        forall|i: int| 0 <= i < pages.len() ==> #[trigger] pages[i].len() == PAGE_SIZE,
        spec_update_edge(pages, f, edge_id, with_edge_properties(ptr)).0 is Ok,
    ensures
        spec_get_edge(spec_update_edge(pages, f, edge_id, with_edge_properties(ptr)).1, f, edge_id)
            == Ok::<GraphEdgeRecord, NexoraGraphEdgeError>(GraphEdgeRecord {
                property_page_id: ptr_page_id(ptr),
                property_slot: ptr_slot(ptr) as u16,
                ..spec_get_edge(pages, f, edge_id)->Ok_0
            }),
{
    let (pid, s, k) = spec_locate_edge(pages, f, edge_id)->Ok_0;
    lemma_find_edge_found(pages, f.first_edge_page, edge_id, pages.len());
    let o = edge_record_offset(k);
    let w = put_u16(put_u64(s, o + 48, ptr_page_id(ptr)), o + 60, ptr_slot(ptr) as u16);
    let t = stamped(w);
    lemma_stamped_checksum_ok(w);
    lemma_edge_page_same_tail(w, t);
    assert forall|j: int| 0 <= j < MAX_EDGE_RECORD_COUNT implies #[trigger] edge_record(w, j) == if j == k {
        GraphEdgeRecord { property_page_id: ptr_page_id(ptr), property_slot: ptr_slot(ptr) as u16, ..edge_record(s, j) }
    } else {
        edge_record(s, j)
    } by {
        let oj = edge_record_offset(j);
        assert(w.subrange(oj, oj + 8) =~= s.subrange(oj, oj + 8));
        assert(w.subrange(oj + 8, oj + 16) =~= s.subrange(oj + 8, oj + 16));
        assert(w.subrange(oj + 16, oj + 24) =~= s.subrange(oj + 16, oj + 24));
        assert(w.subrange(oj + 24, oj + 32) =~= s.subrange(oj + 24, oj + 32));
        assert(w.subrange(oj + 32, oj + 40) =~= s.subrange(oj + 32, oj + 40));
        assert(w.subrange(oj + 40, oj + 48) =~= s.subrange(oj + 40, oj + 48));
        assert(w.subrange(oj + 56, oj + 60) =~= s.subrange(oj + 56, oj + 60));
        assert(w[oj + 62] == s[oj + 62]);
        if j != k {
            assert(w.subrange(oj + 48, oj + 56) =~= s.subrange(oj + 48, oj + 56));
            assert(w.subrange(oj + 60, oj + 62) =~= s.subrange(oj + 60, oj + 62));
        }
    }
    assert(w.subrange(32, 40) =~= s.subrange(32, 40));
    assert(spec_find_edge_slot(s, edge_id) == Some(k));
    lemma_find_edge_from_same_ids(s, w, edge_id, 0);
    assert(spec_find_edge_slot(w, edge_id) == Some(k));
    assert(spec_find_edge_slot(t, edge_id) == Some(k));
    lemma_find_edge_after_rewrite(pages, f.first_edge_page, edge_id, pages.len(), pid, k, t);
    let p2 = spec_update_edge(pages, f, edge_id, with_edge_properties(ptr)).1;
    assert(p2 == pages.update(pid as int, t));
}

/// Reading an edge right after changing its label and weight gives its
/// record with the new label and weight bits.
pub proof fn lemma_update_label_and_weight_then_get(pages: Seq<Seq<u8>>, f: NexoraFooter, edge_id: u64, label_id: u32, weight_bits: u64)
    requires
        forall|i: int| 0 <= i < pages.len() ==> #[trigger] pages[i].len() == PAGE_SIZE,
        spec_update_edge(pages, f, edge_id, with_label_and_weight(label_id, weight_bits)).0 is Ok,
    ensures
        spec_get_edge(spec_update_edge(pages, f, edge_id, with_label_and_weight(label_id, weight_bits)).1, f, edge_id)
            == Ok::<GraphEdgeRecord, NexoraGraphEdgeError>(GraphEdgeRecord {
                label_id,
                weight_bits,
                ..spec_get_edge(pages, f, edge_id)->Ok_0
            }),
{
    let (pid, s, k) = spec_locate_edge(pages, f, edge_id)->Ok_0;
    lemma_find_edge_found(pages, f.first_edge_page, edge_id, pages.len());
    let o = edge_record_offset(k);
    let w = put_u64(put_u32(s, o + 56, label_id), o + 8, weight_bits);
    let t = stamped(w);
    lemma_stamped_checksum_ok(w);
    lemma_edge_page_same_tail(w, t);
    assert forall|j: int| 0 <= j < MAX_EDGE_RECORD_COUNT implies #[trigger] edge_record(w, j) == if j == k {
        GraphEdgeRecord { label_id, weight_bits, ..edge_record(s, j) }
    } else {
        edge_record(s, j)
    } by {
        let oj = edge_record_offset(j);
        assert(w.subrange(oj, oj + 8) =~= s.subrange(oj, oj + 8));
        assert(w.subrange(oj + 16, oj + 24) =~= s.subrange(oj + 16, oj + 24));
        assert(w.subrange(oj + 24, oj + 32) =~= s.subrange(oj + 24, oj + 32));
        assert(w.subrange(oj + 32, oj + 40) =~= s.subrange(oj + 32, oj + 40));
        assert(w.subrange(oj + 40, oj + 48) =~= s.subrange(oj + 40, oj + 48));
        assert(w.subrange(oj + 48, oj + 56) =~= s.subrange(oj + 48, oj + 56));
        assert(w.subrange(oj + 60, oj + 62) =~= s.subrange(oj + 60, oj + 62));
        assert(w[oj + 62] == s[oj + 62]);
        if j != k {
            assert(w.subrange(oj + 8, oj + 16) =~= s.subrange(oj + 8, oj + 16));
            assert(w.subrange(oj + 56, oj + 60) =~= s.subrange(oj + 56, oj + 60));
        }
    }
    assert(w.subrange(32, 40) =~= s.subrange(32, 40));
    assert(spec_find_edge_slot(s, edge_id) == Some(k));
    lemma_find_edge_from_same_ids(s, w, edge_id, 0);
    assert(spec_find_edge_slot(w, edge_id) == Some(k));
    assert(spec_find_edge_slot(t, edge_id) == Some(k));
    lemma_find_edge_after_rewrite(pages, f.first_edge_page, edge_id, pages.len(), pid, k, t);
    let p2 = spec_update_edge(pages, f, edge_id, with_label_and_weight(label_id, weight_bits)).1;
    assert(p2 == pages.update(pid as int, t));
}

/// A search that finds an edge gives a page of the store, with a good
/// checksum, the page's bytes, and the slot the page search gives.
pub proof fn lemma_find_edge_found(pages: Seq<Seq<u8>>, x: u64, edge_id: u64, fuel: nat)
    ensures
        spec_find_edge(pages, x, edge_id, fuel) matches Ok(Some((pid, s, k))) ==> {
            &&& pid < pages.len()
            &&& s == pages[pid as int]
            &&& checksum_ok(s)
            &&& spec_find_edge_slot(s, edge_id) == Some(k)
            &&& 0 <= k < MAX_EDGE_RECORD_COUNT
        },
    decreases fuel,
{
    if x != SENTINEL_PAGE_ID && fuel > 0 && x < pages.len() {
        let s = pages[x as int];
        lemma_find_edge_slot_found(s, edge_id, 0);
        lemma_find_edge_found(pages, view_page_header(s).next_page_id, edge_id, (fuel - 1) as nat);
    }
}

/// Storing `edge` along the edge chain from `pid`, when no page of the chain
/// holds a live edge with its id, puts it in one page, found again there by a
/// search from `pid`, or from the new first page when none had room.
proof fn lemma_edge_insert_walk(pages: Seq<Seq<u8>>, f: NexoraFooter, edge: GraphEdgeRecord, pid: u64, fuel: nat, k: nat, fuel2: nat)
    requires
        forall|i: int| 0 <= i < pages.len() ==> #[trigger] pages[i].len() == PAGE_SIZE,
        chain_ends(pages, f.first_free_page, f.free_pages_count as nat),
        pages.len() <= f.page_count,
        f.page_count < u64::MAX,
        chain_ends(pages, pid, k),
        forall|q: u64| #[trigger] on_chain(pages, pid, q, k) ==> spec_find_edge_slot(pages[q as int], edge.edge_id) is None,
        fuel2 >= fuel,
        spec_edge_insert_into_page(pages, f, edge, pid, fuel).0 is Ok,
    ensures
        ({
            let ins = spec_edge_insert_into_page(pages, f, edge, pid, fuel);
            let pg = ins.0->Ok_0.0.0;
            let slot = ins.0->Ok_0.1;
            &&& pg != SENTINEL_PAGE_ID
            &&& pg < ins.1.len()
            &&& slot < MAX_EDGE_RECORD_COUNT
            &&& ins.1 == pages_after_write(pages, pg as int, ins.1[pg as int])
            &&& edge_record(ins.1[pg as int], slot as int) == (GraphEdgeRecord { flags: FLAG_ACTIVE, ..edge })
            &&& if ins.3 {
                &&& pg >= pages.len() || free_page(pages, f, pg)
                &&& pg == spec_allocate(pages, f).0->Ok_0.0
                &&& ins.2 == (NexoraFooter { first_edge_page: pg, ..spec_allocate(pages, f).1 })
                &&& next_in_chain(ins.1, pg) == f.first_edge_page
                &&& spec_find_edge(ins.1, pg, edge.edge_id, ins.1.len())
                    == Ok::<Option<(u64, Seq<u8>, int)>, NexoraGraphEdgeError>(Some((pg, ins.1[pg as int], slot as int)))
            } else {
                &&& ins.2 == f
                &&& on_chain(pages, pid, pg, k)
                &&& next_in_chain(ins.1, pg) == next_in_chain(pages, pg)
                &&& spec_find_edge(ins.1, pid, edge.edge_id, fuel2)
                    == Ok::<Option<(u64, Seq<u8>, int)>, NexoraGraphEdgeError>(Some((pg, ins.1[pg as int], slot as int)))
                &&& spec_page_insert_edge(pages[pg as int], edge) is Ok
            }
        }),
    decreases fuel,
{
    let ins = spec_edge_insert_into_page(pages, f, edge, pid, fuel);
    if pid == SENTINEL_PAGE_ID {
        let (a, f1) = spec_allocate(pages, f);
        let np = a->Ok_0.0;
        let hdr = NexoraPageHeader {
            page_id: np,
            next_page_id: f1.first_edge_page,
            prev_page_id: SENTINEL_PAGE_ID,
            checksum: 0,
            page_type: page_type_code(PageType::Edge),
            ..view_page_header(zero_bytes())
        };
        lemma_put_page_header(zero_bytes(), hdr);
        let s0 = spec_edge_page_init(zero_bytes(), np, f1.first_edge_page);
        assert(s0.subrange(32, 40) =~= put_u64(put_page_header(zero_bytes(), hdr), 32, 0).subrange(32, 40));
        lemma_find_edge_none_empty(s0, edge.edge_id, 0);
        lemma_page_insert_edge_found(s0, edge);
        let (slot, s2) = spec_page_insert_edge(s0, edge)->Ok_0;
        lemma_stamped_checksum_ok(s2);
        lemma_edge_page_same_tail(s2, stamped(s2));
        let p1 = pages_after_write(pages, np as int, stamped(s2));
        assert(ins.1 == p1);
        assert(p1[np as int] == stamped(s2));
        assert(stamped(s2).subrange(8, 16) =~= s0.subrange(8, 16));
        assert(next_in_chain(p1, np) == f.first_edge_page);
        if f.first_free_page != SENTINEL_PAGE_ID {
            assert(on_chain(pages, f.first_free_page, f.first_free_page, f.free_pages_count as nat));
        }
    } else if fuel > 0 {
        let s = pages[pid as int];
        assert(on_chain(pages, pid, pid, k));
        if spec_read_page(pages, pid, true) is Ok && spec_page_insert_edge(s, edge) is Ok {
            lemma_page_insert_edge_found(s, edge);
            let (slot, s2) = spec_page_insert_edge(s, edge)->Ok_0;
            lemma_stamped_checksum_ok(s2);
            lemma_edge_page_same_tail(s2, stamped(s2));
            let p1 = pages_after_write(pages, pid as int, stamped(s2));
            assert(ins.1 == p1);
            assert(p1[pid as int] == stamped(s2));
            assert(stamped(s2).subrange(8, 16) =~= s.subrange(8, 16));
        } else {
            let y = view_page_header(s).next_page_id;
            assert forall|q: u64| #[trigger] on_chain(pages, y, q, (k - 1) as nat)
                implies spec_find_edge_slot(pages[q as int], edge.edge_id) is None by {
                assert(on_chain(pages, pid, q, k));
            }
            lemma_edge_insert_walk(pages, f, edge, y, (fuel - 1) as nat, (k - 1) as nat, (fuel2 - 1) as nat);
            if !ins.3 {
                let pg = ins.0->Ok_0.0.0;
                assert(pg != pid);
                assert(ins.1[pid as int] == pages[pid as int]);
            }
        }
    }
}

/// Whether a store is in order for adding an edge from `src` to `dst`:
/// pages of full size, a free list that ends within the count of free pages
/// and whose pages lie off the edge chain, the index lookups for the two
/// nodes and their node pages, a page count that covers the pages with room
/// for one more, room for another id,
/// an edge chain that ends and holds no live edge with the new id yet, index
/// lookups for the two nodes that neither pass through nor end on a page of
/// the edge chain or a node page of the two nodes, and node pages for the two
/// nodes off the edge chain.
pub open spec fn edge_insert_ready(pages: Seq<Seq<u8>>, f: NexoraFooter, src: u64, dst: u64) -> bool {
    &&& forall|i: int| 0 <= i < pages.len() ==> #[trigger] pages[i].len() == PAGE_SIZE
    &&& chain_ends(pages, f.first_free_page, f.free_pages_count as nat)
    &&& forall|q: u64| #[trigger] free_page(pages, f, q) ==> {
        &&& !on_chain(pages, f.first_edge_page, q, pages.len())
        &&& node_lookup_clear(pages, f, src, q)
        &&& node_lookup_clear(pages, f, dst, q)
        &&& spec_node_page_id(pages, f, src) != Ok::<PageId, NexoraGraphNodeError>(PageId(q))
        &&& spec_node_page_id(pages, f, dst) != Ok::<PageId, NexoraGraphNodeError>(PageId(q))
    }
    &&& pages.len() <= f.page_count
    &&& f.page_count < u64::MAX
    &&& f.next_edge_id < u64::MAX
    &&& chain_ends(pages, f.first_edge_page, pages.len())
    &&& forall|q: u64| #[trigger] on_chain(pages, f.first_edge_page, q, pages.len()) ==> {
        &&& spec_find_edge_slot(pages[q as int], f.next_edge_id) is None
        &&& node_lookup_clear(pages, f, src, q)
        &&& node_lookup_clear(pages, f, dst, q)
        &&& spec_node_page_id(pages, f, src) != Ok::<PageId, NexoraGraphNodeError>(PageId(q))
        &&& spec_node_page_id(pages, f, dst) != Ok::<PageId, NexoraGraphNodeError>(PageId(q))
    }
    &&& node_lookup_clear(pages, f, src, spec_node_page_id(pages, f, src)->Ok_0.0)
    &&& node_lookup_clear(pages, f, src, spec_node_page_id(pages, f, dst)->Ok_0.0)
    &&& node_lookup_clear(pages, f, dst, spec_node_page_id(pages, f, src)->Ok_0.0)
    &&& node_lookup_clear(pages, f, dst, spec_node_page_id(pages, f, dst)->Ok_0.0)
}

/// Whether the pages that adding an edge from `src` to `dst` reads and
/// writes (the edge chain, the index walks and directory pages of the two
/// nodes, and their node pages) lie off the string chain and the label chain.
pub open spec fn edge_pages_apart(pages: Seq<Seq<u8>>, f: NexoraFooter, src: u64, dst: u64) -> bool {
    forall|q: u64|
        #![trigger on_chain(pages, f.first_string_page, q, pages.len() as nat)]
        #![trigger on_chain(pages, f.first_label_page, q, pages.len() as nat)]
        on_chain(pages, f.first_string_page, q, pages.len() as nat) || on_chain(pages, f.first_label_page, q, pages.len() as nat) ==> {
            &&& !on_chain(pages, f.first_edge_page, q, pages.len() as nat)
            &&& node_lookup_clear(pages, f, src, q)
            &&& node_lookup_clear(pages, f, dst, q)
            &&& spec_node_page_id(pages, f, src) != Ok::<PageId, NexoraGraphNodeError>(PageId(q))
            &&& spec_node_page_id(pages, f, dst) != Ok::<PageId, NexoraGraphNodeError>(PageId(q))
        }
}

/// A node that reads back reads the same, with the same lookups, in a store
/// changed only on pages its lookup and node page avoid.
proof fn lemma_node_read_frame(pages: Seq<Seq<u8>>, f: NexoraFooter, p2: Seq<Seq<u8>>, f2: NexoraFooter, node_id: u64)
    requires
        spec_get_node(pages, f, node_id) is Ok,
        pages.len() <= p2.len(),
        pages.len() < u64::MAX,
        f2.first_page_index_page == f.first_page_index_page,
        f2.next_node_id == f.next_node_id,
        forall|q: u64| q < pages.len() && p2[q as int] != pages[q as int] ==> {
            &&& #[trigger] node_lookup_clear(pages, f, node_id, q)
            &&& spec_node_page_id(pages, f, node_id) != Ok::<PageId, NexoraGraphNodeError>(PageId(q))
        },
    ensures
        spec_get_node(p2, f2, node_id) == spec_get_node(pages, f, node_id),
        spec_node_page_id(p2, f2, node_id) == spec_node_page_id(pages, f, node_id),
        forall|x: u64| #[trigger] node_lookup_clear(p2, f2, node_id, x) == node_lookup_clear(pages, f, node_id, x),
{
    let fi = f.first_page_index_page;
    let k = node_index_find_walk(node_id);
    lemma_walk_ok_avoids_beyond(pages, fi, k, SENTINEL_PAGE_ID);
    assert forall|y: u64| y < pages.len() && p2[y as int] != pages[y as int] implies #[trigger] walk_avoids(pages, fi, k, y) by {
        assert(node_lookup_clear(pages, f, node_id, y));
    }
    lemma_walk_same_pages(pages, p2, fi, k, SENTINEL_PAGE_ID);
    let d = spec_dir_page_id(pages, fi, k)->Ok_0.0;
    if p2[d as int] != pages[d as int] {
        assert(node_lookup_clear(pages, f, node_id, d));
    }
    let pn = spec_node_page_id(pages, f, node_id)->Ok_0.0;
    if p2[pn as int] != pages[pn as int] {
        assert(node_lookup_clear(pages, f, node_id, pn));
    }
    assert(spec_node_page_id(p2, f2, node_id) == spec_node_page_id(pages, f, node_id));
    assert forall|x: u64| #[trigger] node_lookup_clear(p2, f2, node_id, x) == node_lookup_clear(pages, f, node_id, x) by {
        assert(walk_avoids(p2, fi, k, x) == walk_avoids(pages, fi, k, x));
    }
}

/// A store in order for adding an edge stays so through changes to pages of
/// its string and label chains and to pages past its end, when the pages
/// the edge insert uses lie off those chains; the two nodes read the same.
pub proof fn lemma_edge_insert_ready_frame(
    pages: Seq<Seq<u8>>,
    f: NexoraFooter,
    p2: Seq<Seq<u8>>,
    f2: NexoraFooter,
    src: u64,
    dst: u64,
)
    requires
        edge_insert_ready(pages, f, src, dst),
        edge_pages_apart(pages, f, src, dst),
        spec_get_node(pages, f, src) is Ok,
        spec_get_node(pages, f, dst) is Ok,
        forall|i: int| 0 <= i < p2.len() ==> #[trigger] p2[i].len() == PAGE_SIZE,
        pages.len() <= p2.len(),
        forall|q: u64| q < pages.len() && p2[q as int] != pages[q as int]
            ==> on_chain(pages, f.first_string_page, q, pages.len() as nat) || #[trigger] on_chain(pages, f.first_label_page, q, pages.len() as nat),
        f2.first_free_page == f.first_free_page,
        f2.free_pages_count == f.free_pages_count,
        forall|q: u64| q < pages.len() && p2[q as int] != pages[q as int] ==> !#[trigger] free_page(pages, f, q),
        f2.first_edge_page == f.first_edge_page,
        f2.next_edge_id == f.next_edge_id,
        f2.first_page_index_page == f.first_page_index_page,
        f2.next_node_id == f.next_node_id,
        p2.len() <= f2.page_count,
        f2.page_count < u64::MAX,
    ensures
        edge_insert_ready(p2, f2, src, dst),
        spec_get_node(p2, f2, src) == spec_get_node(pages, f, src),
        spec_get_node(p2, f2, dst) == spec_get_node(pages, f, dst),
{
    let kk = pages.len() as nat;
    let fe = f.first_edge_page;
    assert forall|q: u64| q < pages.len() && p2[q as int] != pages[q as int] implies {
        &&& #[trigger] node_lookup_clear(pages, f, src, q)
        &&& spec_node_page_id(pages, f, src) != Ok::<PageId, NexoraGraphNodeError>(PageId(q))
        &&& !on_chain(pages, fe, q, kk)
    } by {
        assert(on_chain(pages, f.first_string_page, q, kk) || on_chain(pages, f.first_label_page, q, kk));
    }
    assert forall|q: u64| q < pages.len() && p2[q as int] != pages[q as int] implies {
        &&& #[trigger] node_lookup_clear(pages, f, dst, q)
        &&& spec_node_page_id(pages, f, dst) != Ok::<PageId, NexoraGraphNodeError>(PageId(q))
    } by {
        assert(on_chain(pages, f.first_string_page, q, kk) || on_chain(pages, f.first_label_page, q, kk));
    }
    lemma_node_read_frame(pages, f, p2, f2, src);
    lemma_node_read_frame(pages, f, p2, f2, dst);
    assert forall|q: u64| #[trigger] on_chain(pages, fe, q, kk) implies q < pages.len() && p2[q as int] == pages[q as int] by {
        lemma_on_chain_in_store(pages, fe, q, kk);
    }
    lemma_chain_same_pages(pages, p2, fe, kk);
    lemma_chain_ends_more(p2, fe, kk, p2.len());
    assert forall|q: u64| #[trigger] on_chain(p2, fe, q, p2.len()) implies {
        &&& spec_find_edge_slot(p2[q as int], f2.next_edge_id) is None
        &&& node_lookup_clear(p2, f2, src, q)
        &&& node_lookup_clear(p2, f2, dst, q)
        &&& spec_node_page_id(p2, f2, src) != Ok::<PageId, NexoraGraphNodeError>(PageId(q))
        &&& spec_node_page_id(p2, f2, dst) != Ok::<PageId, NexoraGraphNodeError>(PageId(q))
    } by {
        lemma_on_chain_within(p2, fe, q, kk, p2.len());
        assert(on_chain(pages, fe, q, kk));
        assert(on_chain(pages, fe, q, pages.len()));
    }
    let ff = f.first_free_page;
    let c = f.free_pages_count as nat;
    assert forall|q: u64| #[trigger] on_chain(pages, ff, q, c) implies q < pages.len() && p2[q as int] == pages[q as int] by {
        lemma_on_chain_in_store(pages, ff, q, c);
        assert(free_page(pages, f, q));
    }
    lemma_chain_same_pages(pages, p2, ff, c);
    assert forall|q: u64| #[trigger] free_page(p2, f2, q) implies {
        &&& !on_chain(p2, f2.first_edge_page, q, p2.len())
        &&& node_lookup_clear(p2, f2, src, q)
        &&& node_lookup_clear(p2, f2, dst, q)
        &&& spec_node_page_id(p2, f2, src) != Ok::<PageId, NexoraGraphNodeError>(PageId(q))
        &&& spec_node_page_id(p2, f2, dst) != Ok::<PageId, NexoraGraphNodeError>(PageId(q))
    } by {
        assert(free_page(pages, f, q));
        if on_chain(p2, fe, q, p2.len()) {
            lemma_on_chain_within(p2, fe, q, kk, p2.len());
            assert(on_chain(pages, fe, q, kk));
        }
    }
}

/// Reading an edge right after inserting it gives the record it was
/// inserted with, linked to the old heads of the two lists, and the edge
/// now heads the source's outgoing and the destination's incoming list; on
/// a store in order for adding the edge (see `edge_insert_ready`).
pub proof fn lemma_insert_edge_then_get(pages: Seq<Seq<u8>>, f: NexoraFooter, src: u64, dst: u64, label_id: u32, weight_bits: u64)
    requires
        edge_insert_ready(pages, f, src, dst),
        spec_insert_edge(pages, f, src, dst, label_id, weight_bits).0 is Ok,
    ensures
        ({
            let s = spec_insert_edge(pages, f, src, dst, label_id, weight_bits);
            let srec = spec_get_node(pages, f, src)->Ok_0;
            let drec = spec_get_node(pages, f, dst)->Ok_0;
            let loc = spec_locate_edge(s.1, s.2, f.next_edge_id)->Ok_0;
            let ptr = PackedPtr(packed(loc.0, loc.2 as u8));
            &&& spec_get_edge(s.1, s.2, f.next_edge_id) == Ok::<GraphEdgeRecord, NexoraGraphEdgeError>(
                new_edge_record(f.next_edge_id, src, dst, label_id, weight_bits, srec.first_out_edge, drec.first_in_edge),
            )
            &&& node_list_head(s.1, s.2, src, true) == Ok::<PackedPtr, NexoraGraphEdgeError>(ptr)
            &&& node_list_head(s.1, s.2, dst, false) == Ok::<PackedPtr, NexoraGraphEdgeError>(ptr)
            &&& loc.0 <= f.page_count
        }),
{
    let id = f.next_edge_id;
    let fe = f.first_edge_page;
    let kk = pages.len() as nat;
    let srec = spec_get_node(pages, f, src)->Ok_0;
    let drec = spec_get_node(pages, f, dst)->Ok_0;
    let edge = new_edge_record(id, src, dst, label_id, weight_bits, srec.first_out_edge, drec.first_in_edge);
    let ins = spec_edge_insert_into_page(pages, f, edge, fe, pages.len());
    lemma_edge_insert_walk(pages, f, edge, fe, pages.len(), kk, pages.len());
    let pg = ins.0->Ok_0.0.0;
    let slot = ins.0->Ok_0.1;
    let ptr = PackedPtr(packed(pg, slot as u8));
    let pid_src = spec_node_page_id(pages, f, src)->Ok_0.0;
    let pid_dst = spec_node_page_id(pages, f, dst)->Ok_0.0;
    // the node lookups see the same pages after the edge page is written
    if ins.3 && pg >= pages.len() {
        lemma_node_lookup_clear_beyond(pages, f, src, pg);
        lemma_node_lookup_clear_beyond(pages, f, dst, pg);
    }
    lemma_node_page_id_frame(pages, f, src, pg, ins.1[pg as int]);
    lemma_node_page_id_frame(pages, f, dst, pg, ins.1[pg as int]);
    assert(spec_node_page_id(ins.1, ins.2, src) == spec_node_page_id(pages, f, src));
    assert(spec_node_page_id(ins.1, ins.2, dst) == spec_node_page_id(pages, f, dst));
    let u1 = spec_update_node(ins.1, ins.2, src, false, with_out_edge(ptr));
    assert(pid_src < pages.len() && pid_dst < pages.len());
    assert(node_lookup_clear(ins.1, f, dst, pid_src));
    assert(node_lookup_clear(ins.1, ins.2, dst, pid_src));
    let d1 = u1.1[pid_src as int];
    assert(u1.1 == pages_after_write(ins.1, pid_src as int, d1));
    lemma_node_page_id_frame(ins.1, ins.2, dst, pid_src, d1);
    let u2 = spec_update_node(u1.1, ins.2, dst, false, with_in_edge(ptr));
    let d2 = u2.1[pid_dst as int];
    assert(u2.1 == pages_after_write(u1.1, pid_dst as int, d2));
    let x = u2.1;
    let s = spec_insert_edge(pages, f, src, dst, label_id, weight_bits);
    assert(s.1 == x);
    let first = ins.2.first_edge_page;
    // the edge chain in the store after the edge page is written
    assert forall|q: u64| #[trigger] on_chain(pages, fe, q, kk) implies q < ins.1.len() && next_in_chain(ins.1, q) == next_in_chain(pages, q) by {
        lemma_on_chain_in_store(pages, fe, q, kk);
    }
    lemma_chain_same_links(pages, ins.1, fe, kk);
    assert forall|q: u64| #[trigger] on_chain(ins.1, first, q, x.len() as nat) implies x[q as int] == ins.1[q as int] by {
        if ins.3 {
            if q != pg {
                lemma_on_chain_within(ins.1, fe, q, kk, (x.len() - 1) as nat);
                assert(on_chain(pages, fe, q, kk));
            }
        } else {
            lemma_on_chain_within(ins.1, fe, q, kk, x.len() as nat);
            assert(on_chain(pages, fe, q, kk));
        }
        assert(q != pid_src && q != pid_dst);
    }
    lemma_find_edge_frame(ins.1, x, first, id, x.len() as nat);
    assert(x.len() == ins.1.len());
    if !ins.3 {
        lemma_on_chain_in_store(pages, fe, pg, kk);
        assert(ins.1.len() == pages.len());
    }
    assert(spec_find_edge(ins.1, first, id, x.len() as nat)
        == Ok::<Option<(u64, Seq<u8>, int)>, NexoraGraphEdgeError>(Some((pg, ins.1[pg as int], slot as int))));
    assert(spec_find_edge(x, first, id, x.len() as nat)
        == Ok::<Option<(u64, Seq<u8>, int)>, NexoraGraphEdgeError>(Some((pg, ins.1[pg as int], slot as int))));
    assert(s.2.first_edge_page == first);
    assert(s.2.next_edge_id == id + 1);
    assert(spec_locate_edge(x, s.2, id) == Ok::<(u64, Seq<u8>, int), NexoraGraphEdgeError>((pg, ins.1[pg as int], slot as int)));
    assert((GraphEdgeRecord { flags: FLAG_ACTIVE, ..edge }) == edge);
    // the two node records after the updates
    assert(node_lookup_clear(ins.1, f, src, pid_src));
    assert(node_lookup_clear(ins.1, f, src, pid_dst));
    assert(node_lookup_clear(ins.1, f, dst, pid_dst));
    assert(spec_node_page_id(ins.1, f, src) == spec_node_page_id(pages, f, src));
    assert(spec_node_page_id(ins.1, f, dst) == spec_node_page_id(pages, f, dst));
    lemma_node_page_id_frame(ins.1, f, src, pid_src, d1);
    lemma_node_page_id_frame(ins.1, f, dst, pid_src, d1);
    assert(node_lookup_clear(u1.1, f, src, pid_dst));
    assert(node_lookup_clear(u1.1, f, dst, pid_dst));
    lemma_node_page_id_frame(u1.1, f, src, pid_dst, d2);
    lemma_node_page_id_frame(u1.1, f, dst, pid_dst, d2);
    assert(spec_node_page_id(x, s.2, src) == Ok::<PageId, NexoraGraphNodeError>(PageId(pid_src)));
    assert(spec_node_page_id(x, s.2, dst) == Ok::<PageId, NexoraGraphNodeError>(PageId(pid_dst)));
    let ssl = node_slot(src);
    let dsl = node_slot(dst);
    let s0 = pages[pid_src as int];
    assert(ins.1[pid_src as int] == s0);
    assert(ins.1[pid_dst as int] == pages[pid_dst as int]);
    assert(d1 == stamped(put_u64(s0, node_record_offset(ssl) + 8, ptr.0)));
    lemma_node_link_write(s0, ssl, 8, ptr.0, ssl);
    lemma_node_link_write(s0, ssl, 8, ptr.0, dsl);
    let s1 = u1.1[pid_dst as int];
    assert(d2 == stamped(put_u64(s1, node_record_offset(dsl) + 16, ptr.0)));
    lemma_node_link_write(s1, dsl, 16, ptr.0, ssl);
    lemma_node_link_write(s1, dsl, 16, ptr.0, dsl);
}

/// Whether the edge list from `ptr` (along outgoing or incoming links)
/// points only into pages of the edge chain from `first`, for `fuel` links.
pub open spec fn list_on_chain(pages: Seq<Seq<u8>>, ptr: PackedPtr, outgoing: bool, fuel: nat, first: u64, k: nat) -> bool
    decreases fuel,
{
    ptr_is_null(ptr) || fuel == 0 || {
        &&& on_chain(pages, first, ptr_page_id(ptr), k)
        &&& (ptr_slot(ptr) < MAX_EDGE_RECORD_COUNT ==> list_on_chain(
            pages,
            edge_link(edge_record(pages[ptr_page_id(ptr) as int], ptr_slot(ptr) as int), outgoing),
            outgoing,
            (fuel - 1) as nat,
            first,
            k,
        ))
    }
}

/// Whether store `p2` keeps the edge chain of `pages` with no live edge
/// `edge_id`: every page of the chain checks, leads to the same next page,
/// holds no live record with that id, and keeps every record id, and the
/// outgoing (`keep_out`) and incoming (`keep_in`) links.
pub open spec fn chain_kept(
    pages: Seq<Seq<u8>>,
    p2: Seq<Seq<u8>>,
    first: u64,
    k: nat,
    edge_id: u64,
    keep_out: bool,
    keep_in: bool,
) -> bool {
    forall|q: u64| #[trigger] on_chain(pages, first, q, k) ==> {
        &&& q < p2.len()
        &&& checksum_ok(p2[q as int])
        &&& next_in_chain(p2, q) == next_in_chain(pages, q)
        &&& spec_find_edge_slot(p2[q as int], edge_id) is None
        &&& forall|j: int| 0 <= j < MAX_EDGE_RECORD_COUNT ==> {
            &&& (#[trigger] edge_record(p2[q as int], j)).edge_id == edge_record(pages[q as int], j).edge_id
            &&& (keep_out ==> edge_record(p2[q as int], j).next_outgoing == edge_record(pages[q as int], j).next_outgoing)
            &&& (keep_in ==> edge_record(p2[q as int], j).next_incoming_address_packed
                == edge_record(pages[q as int], j).next_incoming_address_packed)
        }
    }
}

/// Walking an edge list gives the same in a store that keeps the records
/// and the links the walk follows, on a list within a chain whose pages check.
proof fn lemma_chain_find_frame(
    pages: Seq<Seq<u8>>,
    p2: Seq<Seq<u8>>,
    ptr: PackedPtr,
    prev: Option<PackedPtr>,
    edge_id: u64,
    outgoing: bool,
    fuel: nat,
    first: u64,
    k: nat,
    keep_out: bool,
    keep_in: bool,
)
    requires
        list_on_chain(pages, ptr, outgoing, fuel, first, k),
        forall|q: u64| #[trigger] on_chain(pages, first, q, k) ==> checksum_ok(pages[q as int]),
        chain_kept(pages, p2, first, k, edge_id, keep_out, keep_in),
        outgoing ==> keep_out,
        !outgoing ==> keep_in,
    ensures
        spec_chain_find(p2, ptr, prev, edge_id, outgoing, fuel) == spec_chain_find(pages, ptr, prev, edge_id, outgoing, fuel),
    decreases fuel,
{
    if !ptr_is_null(ptr) && fuel > 0 {
        let q = ptr_page_id(ptr);
        lemma_on_chain_in_store(pages, first, q, k);
        if ptr_slot(ptr) < MAX_EDGE_RECORD_COUNT {
            let j = ptr_slot(ptr) as int;
            assert(edge_record(p2[q as int], j).edge_id == edge_record(pages[q as int], j).edge_id);
            assert(edge_link(edge_record(p2[q as int], j), outgoing) == edge_link(edge_record(pages[q as int], j), outgoing));
            lemma_chain_find_frame(
                pages, p2, edge_link(edge_record(pages[q as int], j), outgoing), Some(ptr), edge_id, outgoing,
                (fuel - 1) as nat, first, k, keep_out, keep_in,
            );
        }
    }
}

/// The link an edge list walk gives back for the record it looks for is the
/// one it started with or a link into the chain the list lies in.
proof fn lemma_chain_find_prev(
    pages: Seq<Seq<u8>>,
    ptr: PackedPtr,
    prev: Option<PackedPtr>,
    edge_id: u64,
    outgoing: bool,
    fuel: nat,
    first: u64,
    k: nat,
)
    requires
        list_on_chain(pages, ptr, outgoing, fuel, first, k),
        prev matches Some(p) ==> on_chain(pages, first, ptr_page_id(p), k) && ptr_slot(p) < MAX_EDGE_RECORD_COUNT,
    ensures
        spec_chain_find(pages, ptr, prev, edge_id, outgoing, fuel) matches Ok(Some(p))
            ==> on_chain(pages, first, ptr_page_id(p), k) && ptr_slot(p) < MAX_EDGE_RECORD_COUNT,
    decreases fuel,
{
    if !ptr_is_null(ptr) && fuel > 0 && ptr_slot(ptr) < MAX_EDGE_RECORD_COUNT {
        let q = ptr_page_id(ptr);
        let j = ptr_slot(ptr) as int;
        lemma_chain_find_prev(pages, edge_link(edge_record(pages[q as int], j), outgoing), Some(ptr), edge_id, outgoing, (fuel - 1) as nat, first, k);
    }
}

/// A search along a chain that the store keeps with no live edge `edge_id`
/// finds nothing.
proof fn lemma_find_edge_none(pages: Seq<Seq<u8>>, p2: Seq<Seq<u8>>, x: u64, edge_id: u64, k: nat, fuel: nat)
    requires
        chain_ends(pages, x, k),
        chain_kept(pages, p2, x, k, edge_id, false, false),
        fuel >= k,
    ensures
        spec_find_edge(p2, x, edge_id, fuel) == Ok::<Option<(u64, Seq<u8>, int)>, NexoraGraphEdgeError>(None),
    decreases k,
{
    if x != SENTINEL_PAGE_ID {
        assert(on_chain(pages, x, x, k));
        let y = next_in_chain(pages, x);
        assert forall|q: u64| #[trigger] on_chain(pages, y, q, (k - 1) as nat) implies {
            &&& q < p2.len()
            &&& checksum_ok(p2[q as int])
            &&& next_in_chain(p2, q) == next_in_chain(pages, q)
            &&& spec_find_edge_slot(p2[q as int], edge_id) is None
            &&& forall|j: int| 0 <= j < MAX_EDGE_RECORD_COUNT ==> {
                &&& (#[trigger] edge_record(p2[q as int], j)).edge_id == edge_record(pages[q as int], j).edge_id
                &&& (false ==> edge_record(p2[q as int], j).next_outgoing == edge_record(pages[q as int], j).next_outgoing)
                &&& (false ==> edge_record(p2[q as int], j).next_incoming_address_packed
                    == edge_record(pages[q as int], j).next_incoming_address_packed)
            }
        } by {
            assert(on_chain(pages, x, q, k));
        }
        lemma_find_edge_none(pages, p2, y, edge_id, (k - 1) as nat, (fuel - 1) as nat);
    }
}

/// Unlinking edge `edge_id` from a node's list, in a store that keeps the
/// edge chain and the list's links, keeps the chain with the other list's
/// links; it writes the node's own page (off the chain) or one chain page,
/// the page returned.
proof fn lemma_remove_keeps(
    pages: Seq<Seq<u8>>,
    px: Seq<Seq<u8>>,
    f: NexoraFooter,
    node_id: u64,
    edge_id: u64,
    next: PackedPtr,
    outgoing: bool,
    keep_out: bool,
    keep_in: bool,
) -> (w: u64)
    requires
        chain_ends(pages, f.first_edge_page, pages.len() as nat),
        forall|q: u64| #[trigger] on_chain(pages, f.first_edge_page, q, pages.len() as nat) ==> checksum_ok(pages[q as int]),
        chain_kept(pages, px, f.first_edge_page, pages.len() as nat, edge_id, keep_out, keep_in),
        outgoing ==> keep_out,
        !outgoing ==> keep_in,
        px.len() == pages.len(),
        forall|i: int| 0 <= i < px.len() ==> #[trigger] px[i].len() == PAGE_SIZE,
        node_list_head(px, f, node_id, outgoing) == node_list_head(pages, f, node_id, outgoing),
        list_on_chain(
            pages,
            node_list_head(pages, f, node_id, outgoing)->Ok_0,
            outgoing,
            edge_chain_fuel(pages.len()),
            f.first_edge_page,
            pages.len() as nat,
        ),
        spec_node_page_id(px, f, node_id) is Ok,
        !on_chain(pages, f.first_edge_page, spec_node_page_id(px, f, node_id)->Ok_0.0, pages.len() as nat),
        spec_remove_from_chain(px, f, node_id, edge_id, next, outgoing).0 is Ok,
    ensures
        ({
            let r = spec_remove_from_chain(px, f, node_id, edge_id, next, outgoing);
            let pn = spec_node_page_id(px, f, node_id)->Ok_0.0;
            &&& chain_kept(pages, r.1, f.first_edge_page, pages.len() as nat, edge_id, keep_out && !outgoing, keep_in && outgoing)
            &&& r.1.len() == pages.len()
            &&& forall|i: int| 0 <= i < r.1.len() ==> #[trigger] r.1[i].len() == PAGE_SIZE
            &&& w < pages.len()
            &&& r.1 == pages_after_write(px, w as int, r.1[w as int])
            &&& (w == pn || on_chain(pages, f.first_edge_page, w, pages.len() as nat))
            &&& w == pn ==> r.1[w as int] == stamped(put_u64(
                px[pn as int],
                node_record_offset(node_slot(node_id)) + if outgoing { 8int } else { 16int },
                next.0,
            ))
            &&& ({
                let head = node_list_head(pages, f, node_id, outgoing)->Ok_0;
                let found = spec_chain_find(pages, head, None, edge_id, outgoing, edge_chain_fuel(pages.len()));
                &&& spec_chain_find(px, head, None, edge_id, outgoing, edge_chain_fuel(pages.len())) == found
                &&& found is Ok
                &&& found == Ok::<Option<PackedPtr>, NexoraGraphEdgeError>(None) ==> w == pn
                &&& found matches Ok(Some(prev)) ==> {
                    &&& w == ptr_page_id(prev)
                    &&& ptr_slot(prev) < MAX_EDGE_RECORD_COUNT
                    &&& on_chain(pages, f.first_edge_page, w, pages.len() as nat)
                    &&& r.1[w as int] == stamped(put_u64(
                        px[w as int],
                        edge_record_offset(ptr_slot(prev) as int) + if outgoing { 32int } else { 40int },
                        next.0,
                    ))
                }
            })
        }),
{
    let fe = f.first_edge_page;
    let kk = pages.len() as nat;
    let r = spec_remove_from_chain(px, f, node_id, edge_id, next, outgoing);
    let head = node_list_head(pages, f, node_id, outgoing)->Ok_0;
    let fuel = edge_chain_fuel(pages.len());
    assert(edge_chain_fuel(px.len()) == fuel);
    lemma_chain_find_frame(pages, px, head, None, edge_id, outgoing, fuel, fe, kk, keep_out, keep_in);
    lemma_chain_find_prev(pages, head, None, edge_id, outgoing, fuel, fe, kk);
    let pn = spec_node_page_id(px, f, node_id)->Ok_0.0;
    match spec_chain_find(px, head, None, edge_id, outgoing, fuel) {
        Ok(None) => {
            let u = spec_update_node(px, f, node_id, false, if outgoing { with_out_edge(next) } else { with_in_edge(next) });
            assert(pn < px.len());
            assert(r.1 == u.1);
            assert(u.1 == pages_after_write(px, pn as int, u.1[pn as int]));
            assert forall|q: u64| #[trigger] on_chain(pages, fe, q, kk) implies u.1[q as int] == px[q as int] by {
                assert(q != pn);
            }
            lemma_stamped_checksum_ok(put_u64(
                px[pn as int],
                node_record_offset(node_slot(node_id)) + if outgoing { 8int } else { 16int },
                next.0,
            ));
            pn
        },
        Ok(Some(prev)) => {
            let q0 = ptr_page_id(prev);
            let j0 = ptr_slot(prev) as int;
            let field: int = if outgoing { 32 } else { 40 };
            lemma_on_chain_in_store(pages, fe, q0, kk);
            let ps = px[q0 as int];
            lemma_link_write_keeps(ps, j0, field, next.0);
            let t = stamped(put_u64(ps, edge_record_offset(j0) + field, next.0));
            assert(r.1 == pages_after_write(px, q0 as int, t));
            assert(r.1[q0 as int] == t);
            assert forall|q: u64| #[trigger] on_chain(pages, fe, q, kk) implies {
                &&& q < r.1.len()
                &&& checksum_ok(r.1[q as int])
                &&& next_in_chain(r.1, q) == next_in_chain(pages, q)
                &&& spec_find_edge_slot(r.1[q as int], edge_id) is None
                &&& forall|j: int| 0 <= j < MAX_EDGE_RECORD_COUNT ==> {
                    &&& (#[trigger] edge_record(r.1[q as int], j)).edge_id == edge_record(pages[q as int], j).edge_id
                    &&& (keep_out && !outgoing ==> edge_record(r.1[q as int], j).next_outgoing == edge_record(pages[q as int], j).next_outgoing)
                    &&& (keep_in && outgoing ==> edge_record(r.1[q as int], j).next_incoming_address_packed
                        == edge_record(pages[q as int], j).next_incoming_address_packed)
                }
            } by {
                if q == q0 {
                    assert(next_in_chain(r.1, q) == next_in_chain(px, q));
                }
            }
            q0
        },
        Err(_) => { 0 },
    }
}

/// Reading an edge right after deleting it finds nothing. Stated for a
/// store whose edge chain ends, checks on every page and holds the edge live
/// in one slot only; whose lists of the edge's two nodes point only into the
/// edge chain; whose node pages for the two nodes are off the chain; and
/// whose index lookups for the two nodes neither pass through nor end on a
/// page of the chain, with the destination's lookup also clear of the
/// source's node page.
pub proof fn lemma_delete_edge_then_get(pages: Seq<Seq<u8>>, f: NexoraFooter, edge_id: u64)
    requires
        forall|i: int| 0 <= i < pages.len() ==> #[trigger] pages[i].len() == PAGE_SIZE,
        chain_ends(pages, f.first_edge_page, pages.len() as nat),
        spec_delete_edge(pages, f, edge_id).0 is Ok,
        ({
            let e = spec_get_edge(pages, f, edge_id)->Ok_0;
            let loc = spec_locate_edge(pages, f, edge_id)->Ok_0;
            let kk = pages.len() as nat;
            let fe = f.first_edge_page;
            let src_page = spec_node_page_id(pages, f, e.src_node_id)->Ok_0.0;
            let dst_page = spec_node_page_id(pages, f, e.dst_node_id)->Ok_0.0;
            &&& forall|q: u64| #[trigger] on_chain(pages, fe, q, kk) ==> {
                &&& checksum_ok(pages[q as int])
                &&& forall|j: int| 0 <= j < MAX_EDGE_RECORD_COUNT && #[trigger] edge_slot_occupied(pages[q as int], j)
                    && edge_record(pages[q as int], j).edge_id == edge_id ==> q == loc.0 && j == loc.2
                &&& node_lookup_clear(pages, f, e.src_node_id, q)
                &&& node_lookup_clear(pages, f, e.dst_node_id, q)
                &&& q != src_page
                &&& q != dst_page
            }
            &&& spec_get_node(pages, f, e.src_node_id) is Ok
            &&& spec_get_node(pages, f, e.dst_node_id) is Ok
            &&& list_on_chain(pages, node_list_head(pages, f, e.src_node_id, true)->Ok_0, true, edge_chain_fuel(pages.len()), fe, kk)
            &&& list_on_chain(pages, node_list_head(pages, f, e.dst_node_id, false)->Ok_0, false, edge_chain_fuel(pages.len()), fe, kk)
            &&& node_lookup_clear(pages, f, e.dst_node_id, src_page)
        }),
    ensures
        ({
            let s = spec_delete_edge(pages, f, edge_id);
            spec_get_edge(s.1, s.2, edge_id) == Err::<GraphEdgeRecord, NexoraGraphEdgeError>(NexoraGraphEdgeError::EdgeNotFound)
        }),
{
    let fe = f.first_edge_page;
    let kk = pages.len() as nat;
    let (pid, s, k) = spec_locate_edge(pages, f, edge_id)->Ok_0;
    lemma_find_edge_found(pages, fe, edge_id, pages.len());
    let e = edge_record(s, k);
    let src = e.src_node_id;
    let dst = e.dst_node_id;
    let src_page = spec_node_page_id(pages, f, src)->Ok_0.0;
    let dst_page = spec_node_page_id(pages, f, dst)->Ok_0.0;
    // the tombstone
    assert(on_chain(pages, fe, pid, kk)) by {
        lemma_find_edge_on_chain(pages, fe, edge_id, pages.len(), kk);
    }
    lemma_delete_slot_unfinds(s, k, edge_id);
    let tomb = stamped(spec_page_delete_slot(s, k));
    let p1 = pages_after_write(pages, pid as int, tomb);
    assert forall|q: u64| #[trigger] on_chain(pages, fe, q, kk) implies {
        &&& q < p1.len()
        &&& checksum_ok(p1[q as int])
        &&& next_in_chain(p1, q) == next_in_chain(pages, q)
        &&& spec_find_edge_slot(p1[q as int], edge_id) is None
        &&& forall|j: int| 0 <= j < MAX_EDGE_RECORD_COUNT ==> {
            &&& (#[trigger] edge_record(p1[q as int], j)).edge_id == edge_record(pages[q as int], j).edge_id
            &&& (true ==> edge_record(p1[q as int], j).next_outgoing == edge_record(pages[q as int], j).next_outgoing)
            &&& (true ==> edge_record(p1[q as int], j).next_incoming_address_packed
                == edge_record(pages[q as int], j).next_incoming_address_packed)
        }
    } by {
        lemma_on_chain_in_store(pages, fe, q, kk);
        if q != pid {
            lemma_find_edge_slot_found(pages[q as int], edge_id, 0);
        }
    }
    assert(chain_kept(pages, p1, fe, kk, edge_id, true, true));
    assert(forall|i: int| 0 <= i < p1.len() ==> #[trigger] p1[i].len() == PAGE_SIZE);
    // the source's list
    lemma_node_page_id_frame(pages, f, src, pid, tomb);
    lemma_node_page_id_frame(pages, f, dst, pid, tomb);
    assert(p1[src_page as int] == pages[src_page as int]);
    assert(p1[dst_page as int] == pages[dst_page as int]);
    assert(spec_get_node(p1, f, src) == spec_get_node(pages, f, src));
    assert(node_list_head(p1, f, src, true) == node_list_head(pages, f, src, true));
    let o = spec_remove_from_chain(p1, f, src, edge_id, e.next_outgoing, true);
    let w1 = lemma_remove_keeps(pages, p1, f, src, edge_id, e.next_outgoing, true, true, true);
    let p2 = o.1;
    // the destination's list
    assert(node_lookup_clear(p1, f, dst, w1));
    lemma_node_page_id_frame(p1, f, dst, w1, p2[w1 as int]);
    assert(spec_node_page_id(p2, f, dst) == spec_node_page_id(pages, f, dst));
    if w1 == src_page && dst_page == src_page {
        lemma_node_link_write(p1[src_page as int], node_slot(src), 8, e.next_outgoing.0, node_slot(dst));
    }
    assert(node_list_head(p2, f, dst, false) == node_list_head(pages, f, dst, false));
    let i = spec_remove_from_chain(p2, f, dst, edge_id, e.next_incoming_address_packed, false);
    let w2 = lemma_remove_keeps(pages, p2, f, dst, edge_id, e.next_incoming_address_packed, false, false, true);
    let p3 = i.1;
    lemma_find_edge_none(pages, p3, fe, edge_id, kk, p3.len() as nat);
    let sd = spec_delete_edge(pages, f, edge_id);
    assert(sd.1 == p3);
}

/// Deleting an edge takes it out of both its lists and keeps every other
/// edge in them, in order: walking the source's outgoing list and the
/// destination's incoming list afterwards meets the ids met before with the
/// deleted edge's id taken out. Stated for a store in order for the delete
/// (as `lemma_delete_edge_then_get`, with no other record of the chain, live
/// or deleted, holding the edge's id) whose two lists read to their end, and
/// whose index lookups for the two nodes also avoid the two nodes' pages.
#[verifier::rlimit(100)]
#[verifier::spinoff_prover]
pub proof fn lemma_delete_edge_unlinks(pages: Seq<Seq<u8>>, f: NexoraFooter, edge_id: u64)
    requires
        forall|i: int| 0 <= i < pages.len() ==> #[trigger] pages[i].len() == PAGE_SIZE,
        chain_ends(pages, f.first_edge_page, pages.len() as nat),
        spec_delete_edge(pages, f, edge_id).0 is Ok,
        ({
            let e = spec_get_edge(pages, f, edge_id)->Ok_0;
            let loc = spec_locate_edge(pages, f, edge_id)->Ok_0;
            let kk = pages.len() as nat;
            let fe = f.first_edge_page;
            let fuel = edge_chain_fuel(pages.len());
            let src_page = spec_node_page_id(pages, f, e.src_node_id)->Ok_0.0;
            let dst_page = spec_node_page_id(pages, f, e.dst_node_id)->Ok_0.0;
            &&& forall|q: u64| #[trigger] on_chain(pages, fe, q, kk) ==> {
                &&& checksum_ok(pages[q as int])
                &&& forall|j: int| 0 <= j < MAX_EDGE_RECORD_COUNT && #[trigger] edge_record(pages[q as int], j).edge_id == edge_id
                    ==> q == loc.0 && j == loc.2
                &&& node_lookup_clear(pages, f, e.src_node_id, q)
                &&& node_lookup_clear(pages, f, e.dst_node_id, q)
                &&& q != src_page
                &&& q != dst_page
            }
            &&& spec_get_node(pages, f, e.src_node_id) is Ok
            &&& spec_get_node(pages, f, e.dst_node_id) is Ok
            &&& list_on_chain(pages, node_list_head(pages, f, e.src_node_id, true)->Ok_0, true, fuel, fe, kk)
            &&& list_on_chain(pages, node_list_head(pages, f, e.dst_node_id, false)->Ok_0, false, fuel, fe, kk)
            &&& list_ids(pages, node_list_head(pages, f, e.src_node_id, true)->Ok_0, true, fuel) is Some
            &&& list_ids(pages, node_list_head(pages, f, e.dst_node_id, false)->Ok_0, false, fuel) is Some
            &&& node_lookup_clear(pages, f, e.dst_node_id, src_page)
            &&& node_lookup_clear(pages, f, e.src_node_id, src_page)
            &&& node_lookup_clear(pages, f, e.src_node_id, dst_page)
            &&& node_lookup_clear(pages, f, e.dst_node_id, dst_page)
        }),
    ensures
        ({
            let s = spec_delete_edge(pages, f, edge_id);
            let e = spec_get_edge(pages, f, edge_id)->Ok_0;
            let fuel = edge_chain_fuel(pages.len());
            let out0 = list_ids(pages, node_list_head(pages, f, e.src_node_id, true)->Ok_0, true, fuel)->Some_0;
            let in0 = list_ids(pages, node_list_head(pages, f, e.dst_node_id, false)->Ok_0, false, fuel)->Some_0;
            &&& node_list_head(s.1, s.2, e.src_node_id, true) is Ok
            &&& node_list_head(s.1, s.2, e.dst_node_id, false) is Ok
            &&& list_ids(s.1, node_list_head(s.1, s.2, e.src_node_id, true)->Ok_0, true, fuel) == Some(remove_first(out0, edge_id))
            &&& list_ids(s.1, node_list_head(s.1, s.2, e.dst_node_id, false)->Ok_0, false, fuel) == Some(remove_first(in0, edge_id))
        }),
{
    let fe = f.first_edge_page;
    let kk = pages.len() as nat;
    let fuel = edge_chain_fuel(pages.len());
    let (pid, s, k) = spec_locate_edge(pages, f, edge_id)->Ok_0;
    lemma_find_edge_found(pages, fe, edge_id, pages.len());
    let e = edge_record(s, k);
    let src = e.src_node_id;
    let dst = e.dst_node_id;
    let src_page = spec_node_page_id(pages, f, src)->Ok_0.0;
    let dst_page = spec_node_page_id(pages, f, dst)->Ok_0.0;
    // the tombstone
    assert(on_chain(pages, fe, pid, kk)) by {
        lemma_find_edge_on_chain(pages, fe, edge_id, pages.len(), kk);
    }
    lemma_delete_slot_unfinds(s, k, edge_id);
    let tomb = stamped(spec_page_delete_slot(s, k));
    let p1 = pages_after_write(pages, pid as int, tomb);
    assert forall|q: u64| #[trigger] on_chain(pages, fe, q, kk) implies {
        &&& q < p1.len()
        &&& checksum_ok(p1[q as int])
        &&& next_in_chain(p1, q) == next_in_chain(pages, q)
        &&& spec_find_edge_slot(p1[q as int], edge_id) is None
        &&& forall|j: int| 0 <= j < MAX_EDGE_RECORD_COUNT ==> {
            &&& (#[trigger] edge_record(p1[q as int], j)).edge_id == edge_record(pages[q as int], j).edge_id
            &&& (true ==> edge_record(p1[q as int], j).next_outgoing == edge_record(pages[q as int], j).next_outgoing)
            &&& (true ==> edge_record(p1[q as int], j).next_incoming_address_packed
                == edge_record(pages[q as int], j).next_incoming_address_packed)
        }
    } by {
        lemma_on_chain_in_store(pages, fe, q, kk);
        if q != pid {
            lemma_find_edge_slot_found(pages[q as int], edge_id, 0);
        }
    }
    assert(chain_kept(pages, p1, fe, kk, edge_id, true, true));
    assert(forall|i: int| 0 <= i < p1.len() ==> #[trigger] p1[i].len() == PAGE_SIZE);
    // the source's list
    lemma_node_page_id_frame(pages, f, src, pid, tomb);
    lemma_node_page_id_frame(pages, f, dst, pid, tomb);
    assert(p1[src_page as int] == pages[src_page as int]);
    assert(p1[dst_page as int] == pages[dst_page as int]);
    assert(spec_get_node(p1, f, src) == spec_get_node(pages, f, src));
    assert(node_list_head(p1, f, src, true) == node_list_head(pages, f, src, true));
    let o = spec_remove_from_chain(p1, f, src, edge_id, e.next_outgoing, true);
    let w1 = lemma_remove_keeps(pages, p1, f, src, edge_id, e.next_outgoing, true, true, true);
    let p2 = o.1;
    // the destination's list
    assert(node_lookup_clear(p1, f, dst, w1));
    lemma_node_page_id_frame(p1, f, dst, w1, p2[w1 as int]);
    assert(spec_node_page_id(p2, f, dst) == spec_node_page_id(pages, f, dst));
    if w1 == src_page && dst_page == src_page {
        lemma_node_link_write(p1[src_page as int], node_slot(src), 8, e.next_outgoing.0, node_slot(dst));
    }
    assert(node_list_head(p2, f, dst, false) == node_list_head(pages, f, dst, false));
    let i = spec_remove_from_chain(p2, f, dst, edge_id, e.next_incoming_address_packed, false);
    let w2 = lemma_remove_keeps(pages, p2, f, dst, edge_id, e.next_incoming_address_packed, false, false, true);
    let p3 = i.1;
    let sd = spec_delete_edge(pages, f, edge_id);
    assert(sd.1 == p3);
    assert(sd.2 == NexoraFooter { edge_count: (f.edge_count - 1) as u64, ..f });
    // where the two lists meet the edge: its own record
    let h_out = node_list_head(pages, f, src, true)->Ok_0;
    let h_in = node_list_head(pages, f, dst, false)->Ok_0;
    let found_out = spec_chain_find(pages, h_out, None, edge_id, true, fuel);
    let found_in = spec_chain_find(pages, h_in, None, edge_id, false, fuel);
    assert(found_out is Ok && found_in is Ok);
    lemma_chain_find_at(pages, h_out, None, edge_id, true, fuel, fe, kk);
    lemma_chain_find_at(pages, h_in, None, edge_id, false, fuel, fe, kk);
    let y_out: PackedPtr = match found_out {
        Ok(Some(r)) => edge_link(edge_record(pages[ptr_page_id(r) as int], ptr_slot(r) as int), true),
        _ => h_out,
    };
    let y_in: PackedPtr = match found_in {
        Ok(Some(r)) => edge_link(edge_record(pages[ptr_page_id(r) as int], ptr_slot(r) as int), false),
        _ => h_in,
    };
    assert(ptr_page_id(y_out) == pid && ptr_slot(y_out) as int == k);
    assert(ptr_page_id(y_in) == pid && ptr_slot(y_in) as int == k);
    assert(s == pages[pid as int]);
    // every record keeps its id and its links, but the links that now skip the edge
    let exc_out: Option<(u64, int)> = match found_out {
        Ok(Some(r)) => Some((ptr_page_id(r), ptr_slot(r) as int)),
        _ => None,
    };
    let exc_in: Option<(u64, int)> = match found_in {
        Ok(Some(r)) => Some((ptr_page_id(r), ptr_slot(r) as int)),
        _ => None,
    };
    assert forall|q: u64| #[trigger] on_chain(pages, fe, q, kk) implies {
        &&& q < p3.len()
        &&& checksum_ok(p3[q as int])
        &&& forall|j: int| 0 <= j < MAX_EDGE_RECORD_COUNT ==> {
            &&& (#[trigger] edge_record(p3[q as int], j)).edge_id == edge_record(pages[q as int], j).edge_id
            &&& edge_record(p3[q as int], j).next_outgoing == if exc_out == Some((q, j)) {
                e.next_outgoing
            } else {
                edge_record(pages[q as int], j).next_outgoing
            }
            &&& edge_record(p3[q as int], j).next_incoming_address_packed == if exc_in == Some((q, j)) {
                e.next_incoming_address_packed
            } else {
                edge_record(pages[q as int], j).next_incoming_address_packed
            }
        }
    } by {
        lemma_on_chain_in_store(pages, fe, q, kk);
        if let Ok(Some(r)) = found_out {
            if q == w1 {
                lemma_link_write_keeps(p1[q as int], ptr_slot(r) as int, 32, e.next_outgoing.0);
            }
        }
        if let Ok(Some(r)) = found_in {
            if q == w2 {
                lemma_link_write_keeps(p2[q as int], ptr_slot(r) as int, 40, e.next_incoming_address_packed.0);
            }
        }
    }
    assert(links_agree(pages, p3, fe, kk, true, exc_out, e.next_outgoing));
    assert(links_agree(pages, p3, fe, kk, false, exc_in, e.next_incoming_address_packed));
    // the heads of the two lists afterwards
    let none: Result<Option<PackedPtr>, NexoraGraphEdgeError> = Ok(None);
    let new_out = if found_out == none { e.next_outgoing } else { h_out };
    let new_in = if found_in == none { e.next_incoming_address_packed } else { h_in };
    let slot_s = node_slot(src);
    let slot_d = node_slot(dst);
    lemma_node_page_id_frame(p1, f, src, w1, p2[w1 as int]);
    assert(node_lookup_clear(p2, f, src, w2));
    assert(node_lookup_clear(p2, f, dst, w2));
    lemma_node_page_id_frame(p2, f, src, w2, p3[w2 as int]);
    lemma_node_page_id_frame(p2, f, dst, w2, p3[w2 as int]);
    assert(spec_node_page_id(p3, f, src) == spec_node_page_id(pages, f, src));
    assert(spec_node_page_id(p3, f, dst) == spec_node_page_id(pages, f, dst));
    let ns = spec_get_node(pages, f, src)->Ok_0;
    let nd = spec_get_node(pages, f, dst)->Ok_0;
    // the source's node record
    if found_out == none {
        assert(w1 == src_page);
        lemma_node_link_write(p1[src_page as int], slot_s, 8, e.next_outgoing.0, slot_s);
        if src_page == dst_page {
            lemma_node_link_write(p1[src_page as int], slot_s, 8, e.next_outgoing.0, slot_d);
        }
    } else {
        assert(w1 != src_page);
    }
    if found_in == none {
        assert(w2 == dst_page);
        lemma_node_link_write(p2[dst_page as int], slot_d, 16, e.next_incoming_address_packed.0, slot_d);
        if src_page == dst_page {
            lemma_node_link_write(p2[dst_page as int], slot_d, 16, e.next_incoming_address_packed.0, slot_s);
        }
    } else {
        assert(w2 != dst_page);
    }
    assert(checksum_ok(p3[src_page as int]) && checksum_ok(p3[dst_page as int]));
    assert(node_record_count(p3[src_page as int]) == node_record_count(pages[src_page as int]));
    assert(node_record_count(p3[dst_page as int]) == node_record_count(pages[dst_page as int]));
    assert(ns == node_record(pages[src_page as int], slot_s));
    assert(nd == node_record(pages[dst_page as int], slot_d));
    assert(node_record(p3[src_page as int], slot_s).first_out_edge == new_out);
    assert(node_record(p3[src_page as int], slot_s).flags == ns.flags);
    assert(node_record(p3[dst_page as int], slot_d).first_in_edge == new_in);
    assert(node_record(p3[dst_page as int], slot_d).flags == nd.flags);
    assert(node_list_head(p3, sd.2, src, true) == Ok::<PackedPtr, NexoraGraphEdgeError>(new_out));
    assert(node_list_head(p3, sd.2, dst, false) == Ok::<PackedPtr, NexoraGraphEdgeError>(new_in));
    assert(e.edge_id == edge_id);
    // the outgoing list
    let out0 = list_ids(pages, h_out, true, fuel)->Some_0;
    assert(list_ids(p3, new_out, true, fuel) == Some(remove_first(out0, edge_id))) by {
        if let Ok(Some(r)) = found_out {
            assert(edge_record(pages[ptr_page_id(h_out) as int], ptr_slot(h_out) as int).edge_id != edge_id);
            lemma_list_ids_unlink(pages, p3, h_out, None, edge_id, true, fuel, fe, kk, r, e.next_outgoing);
        } else {
            let z = e.next_outgoing;
            assert(list_on_chain(pages, z, true, (fuel - 1) as nat, fe, kk));
            lemma_list_ids_frame(pages, p3, z, true, (fuel - 1) as nat, fe, kk, None, e.next_outgoing);
            lemma_list_ids_fuel(p3, z, true, (fuel - 1) as nat, fuel);
            let rest = list_ids(pages, z, true, (fuel - 1) as nat)->Some_0;
            assert(out0 == seq![edge_id] + rest);
            assert((seq![edge_id] + rest).drop_first() =~= rest);
        }
    }
    // the incoming list
    let in0 = list_ids(pages, h_in, false, fuel)->Some_0;
    assert(list_ids(p3, new_in, false, fuel) == Some(remove_first(in0, edge_id))) by {
        if let Ok(Some(r)) = found_in {
            assert(edge_record(pages[ptr_page_id(h_in) as int], ptr_slot(h_in) as int).edge_id != edge_id);
            lemma_list_ids_unlink(pages, p3, h_in, None, edge_id, false, fuel, fe, kk, r, e.next_incoming_address_packed);
        } else {
            let z = e.next_incoming_address_packed;
            assert(list_on_chain(pages, z, false, (fuel - 1) as nat, fe, kk));
            lemma_list_ids_frame(pages, p3, z, false, (fuel - 1) as nat, fe, kk, None, e.next_incoming_address_packed);
            lemma_list_ids_fuel(p3, z, false, (fuel - 1) as nat, fuel);
            let rest = list_ids(pages, z, false, (fuel - 1) as nat)->Some_0;
            assert(in0 == seq![edge_id] + rest);
            assert((seq![edge_id] + rest).drop_first() =~= rest);
        }
    }
}

/// The page a search finds an edge in is on the chain it searches.
proof fn lemma_find_edge_on_chain(pages: Seq<Seq<u8>>, x: u64, edge_id: u64, fuel: nat, k: nat)
    requires
        chain_ends(pages, x, k),
    ensures
        spec_find_edge(pages, x, edge_id, fuel) matches Ok(Some((pid, s, j))) ==> on_chain(pages, x, pid, k),
    decreases fuel,
{
    if x != SENTINEL_PAGE_ID && fuel > 0 && x < pages.len() {
        let s = pages[x as int];
        assert(on_chain(pages, x, x, k));
        lemma_find_edge_on_chain(pages, view_page_header(s).next_page_id, edge_id, (fuel - 1) as nat, (k - 1) as nat);
    }
}

/// The edge ids met walking an edge list from `ptr` along outgoing or
/// incoming links, in list order, within `fuel` links; none when the walk
/// does not reach the end of the list with every record read.
pub open spec fn list_ids(pages: Seq<Seq<u8>>, ptr: PackedPtr, outgoing: bool, fuel: nat) -> Option<Seq<u64>>
    decreases fuel,
{
    if ptr_is_null(ptr) {
        Some(Seq::empty())
    } else if fuel == 0 {
        None
    } else {
        match spec_read_page(pages, ptr_page_id(ptr), true) {
            Err(_) => None,
            Ok(s) => if ptr_slot(ptr) >= MAX_EDGE_RECORD_COUNT {
                None
            } else {
                let e = edge_record(s, ptr_slot(ptr) as int);
                match list_ids(pages, edge_link(e, outgoing), outgoing, (fuel - 1) as nat) {
                    None => None,
                    Some(rest) => Some(seq![e.edge_id] + rest),
                }
            },
        }
    }
}

/// `ids` with the first `e` in it taken out.
pub open spec fn remove_first(ids: Seq<u64>, e: u64) -> Seq<u64>
    decreases ids.len(),
{
    if ids.len() == 0 {
        ids
    } else if ids[0] == e {
        ids.drop_first()
    } else {
        seq![ids[0]] + remove_first(ids.drop_first(), e)
    }
}

/// Whether a walk of an edge list from `ptr`, within `fuel` links, comes to
/// slot `j` of page `q`.
pub open spec fn list_visits(pages: Seq<Seq<u8>>, ptr: PackedPtr, outgoing: bool, fuel: nat, q: u64, j: int) -> bool
    decreases fuel,
{
    !ptr_is_null(ptr) && fuel > 0 && {
        ||| (ptr_page_id(ptr) == q && ptr_slot(ptr) as int == j)
        ||| (ptr_page_id(ptr) < pages.len() && ptr_slot(ptr) < MAX_EDGE_RECORD_COUNT && list_visits(
            pages,
            edge_link(edge_record(pages[ptr_page_id(ptr) as int], ptr_slot(ptr) as int), outgoing),
            outgoing,
            (fuel - 1) as nat,
            q,
            j,
        ))
    }
}

/// Whether store `p2` keeps, for every record on the pages of the edge
/// chain of `p`, its id and its link of one kind, but for the record in slot
/// `exc` (when there is one), whose link becomes `nl`; and the pages check.
pub open spec fn links_agree(
    p: Seq<Seq<u8>>,
    p2: Seq<Seq<u8>>,
    first: u64,
    k: nat,
    outgoing: bool,
    exc: Option<(u64, int)>,
    nl: PackedPtr,
) -> bool {
    forall|q: u64| #[trigger] on_chain(p, first, q, k) ==> {
        &&& q < p2.len()
        &&& checksum_ok(p2[q as int])
        &&& forall|j: int| 0 <= j < MAX_EDGE_RECORD_COUNT ==> {
            &&& (#[trigger] edge_record(p2[q as int], j)).edge_id == edge_record(p[q as int], j).edge_id
            &&& edge_link(edge_record(p2[q as int], j), outgoing) == if exc == Some((q, j)) {
                nl
            } else {
                edge_link(edge_record(p[q as int], j), outgoing)
            }
        }
    }
}

/// A list walk that reaches its end does so with any more fuel.
proof fn lemma_list_ids_fuel(pages: Seq<Seq<u8>>, ptr: PackedPtr, outgoing: bool, n: nat, m: nat)
    requires
        list_ids(pages, ptr, outgoing, n) is Some,
        n <= m,
    ensures
        list_ids(pages, ptr, outgoing, m) == list_ids(pages, ptr, outgoing, n),
    decreases n,
{
    if !ptr_is_null(ptr) {
        let s = pages[ptr_page_id(ptr) as int];
        lemma_list_ids_fuel(pages, edge_link(edge_record(s, ptr_slot(ptr) as int), outgoing), outgoing, (n - 1) as nat, (m - 1) as nat);
    }
}

/// A list walk that reaches its end and comes to slot `j` of page `q` goes
/// on from that record to the end with one link less.
proof fn lemma_list_visit_tail(pages: Seq<Seq<u8>>, ptr: PackedPtr, outgoing: bool, m: nat, n: nat, q: u64, j: int)
    requires
        list_ids(pages, ptr, outgoing, m) is Some,
        list_visits(pages, ptr, outgoing, n, q, j),
    ensures
        m > 0,
        q < pages.len(),
        checksum_ok(pages[q as int]),
        0 <= j < MAX_EDGE_RECORD_COUNT,
        list_ids(pages, edge_link(edge_record(pages[q as int], j), outgoing), outgoing, (m - 1) as nat) is Some,
    decreases n,
{
    let s = pages[ptr_page_id(ptr) as int];
    let y = edge_link(edge_record(s, ptr_slot(ptr) as int), outgoing);
    if !(ptr_page_id(ptr) == q && ptr_slot(ptr) as int == j) {
        lemma_list_visit_tail(pages, y, outgoing, (m - 1) as nat, (n - 1) as nat, q, j);
        lemma_list_ids_fuel(pages, edge_link(edge_record(pages[q as int], j), outgoing), outgoing, (m - 2) as nat, (m - 1) as nat);
    }
}

/// A list walk that reaches its end never comes back to a record it left.
proof fn lemma_list_no_return(pages: Seq<Seq<u8>>, ptr: PackedPtr, outgoing: bool, m: nat, n: nat)
    requires
        !ptr_is_null(ptr),
        list_ids(pages, ptr, outgoing, m) is Some,
    ensures
        !list_visits(
            pages,
            edge_link(edge_record(pages[ptr_page_id(ptr) as int], ptr_slot(ptr) as int), outgoing),
            outgoing,
            n,
            ptr_page_id(ptr),
            ptr_slot(ptr) as int,
        ),
    decreases m,
{
    let q = ptr_page_id(ptr);
    let j = ptr_slot(ptr) as int;
    let y = edge_link(edge_record(pages[q as int], j), outgoing);
    if list_visits(pages, y, outgoing, n, q, j) {
        lemma_list_visit_tail(pages, y, outgoing, (m - 1) as nat, n, q, j);
        assert(list_ids(pages, ptr, outgoing, (m - 1) as nat) is Some);
        lemma_list_no_return(pages, ptr, outgoing, (m - 1) as nat, n);
    }
}

/// A list walk that never comes to the one record whose link changed
/// meets the same ids in the changed store.
proof fn lemma_list_ids_frame(
    p: Seq<Seq<u8>>,
    p2: Seq<Seq<u8>>,
    ptr: PackedPtr,
    outgoing: bool,
    n: nat,
    first: u64,
    k: nat,
    exc: Option<(u64, int)>,
    nl: PackedPtr,
)
    requires
        list_ids(p, ptr, outgoing, n) is Some,
        list_on_chain(p, ptr, outgoing, n, first, k),
        links_agree(p, p2, first, k, outgoing, exc, nl),
        exc matches Some((q, j)) ==> !list_visits(p, ptr, outgoing, n, q, j),
    ensures
        list_ids(p2, ptr, outgoing, n) == list_ids(p, ptr, outgoing, n),
    decreases n,
{
    if !ptr_is_null(ptr) {
        let q = ptr_page_id(ptr);
        let j = ptr_slot(ptr) as int;
        let y = edge_link(edge_record(p[q as int], j), outgoing);
        assert(on_chain(p, first, q, k));
        assert(edge_record(p2[q as int], j).edge_id == edge_record(p[q as int], j).edge_id);
        assert(edge_link(edge_record(p2[q as int], j), outgoing) == y);
        lemma_list_ids_frame(p, p2, y, outgoing, (n - 1) as nat, first, k, exc, nl);
    }
}

/// A walk that finds record `edge_id` after a link returns a link it came
/// through, or the one it was handed.
proof fn lemma_chain_find_visits(
    pages: Seq<Seq<u8>>,
    ptr: PackedPtr,
    prev: Option<PackedPtr>,
    edge_id: u64,
    outgoing: bool,
    fuel: nat,
)
    ensures
        spec_chain_find(pages, ptr, prev, edge_id, outgoing, fuel) matches Ok(Some(r)) ==> (prev == Some(r)
            && edge_record(pages[ptr_page_id(ptr) as int], ptr_slot(ptr) as int).edge_id == edge_id)
            || list_visits(pages, ptr, outgoing, fuel, ptr_page_id(r), ptr_slot(r) as int),
    decreases fuel,
{
    if !ptr_is_null(ptr) && fuel > 0 {
        if let Ok(s) = spec_read_page(pages, ptr_page_id(ptr), true) {
            if ptr_slot(ptr) < MAX_EDGE_RECORD_COUNT {
                let y = edge_link(edge_record(s, ptr_slot(ptr) as int), outgoing);
                lemma_chain_find_visits(pages, y, Some(ptr), edge_id, outgoing, (fuel - 1) as nat);
            }
        }
    }
}

/// Where a walk along a list that lies in the edge chain finds record
/// `edge_id`: at the link it started from, when it hands back the link it
/// was given, or at the link of the record it hands back.
proof fn lemma_chain_find_at(
    pages: Seq<Seq<u8>>,
    ptr: PackedPtr,
    prev: Option<PackedPtr>,
    edge_id: u64,
    outgoing: bool,
    fuel: nat,
    first: u64,
    k: nat,
)
    requires
        list_on_chain(pages, ptr, outgoing, fuel, first, k),
    ensures
        spec_chain_find(pages, ptr, prev, edge_id, outgoing, fuel) matches Ok(res) ==> {
            ||| (res == prev && !ptr_is_null(ptr) && on_chain(pages, first, ptr_page_id(ptr), k)
                && ptr_slot(ptr) < MAX_EDGE_RECORD_COUNT
                && edge_record(pages[ptr_page_id(ptr) as int], ptr_slot(ptr) as int).edge_id == edge_id)
            ||| (res matches Some(r) && {
                let y = edge_link(edge_record(pages[ptr_page_id(r) as int], ptr_slot(r) as int), outgoing);
                &&& on_chain(pages, first, ptr_page_id(r), k)
                &&& ptr_slot(r) < MAX_EDGE_RECORD_COUNT
                &&& !ptr_is_null(y)
                &&& on_chain(pages, first, ptr_page_id(y), k)
                &&& ptr_slot(y) < MAX_EDGE_RECORD_COUNT
                &&& edge_record(pages[ptr_page_id(y) as int], ptr_slot(y) as int).edge_id == edge_id
            })
        },
    decreases fuel,
{
    if !ptr_is_null(ptr) && fuel > 0 {
        if let Ok(s) = spec_read_page(pages, ptr_page_id(ptr), true) {
            if ptr_slot(ptr) < MAX_EDGE_RECORD_COUNT {
                let y = edge_link(edge_record(s, ptr_slot(ptr) as int), outgoing);
                lemma_chain_find_at(pages, y, Some(ptr), edge_id, outgoing, (fuel - 1) as nat, first, k);
            }
        }
    }
}

/// Unlinking the record after link `r` (the first record with id `e` met
/// from `ptr`, past the record at `ptr`) takes that id out of the walk, and
/// the walk meets every other id as before.
proof fn lemma_list_ids_unlink(
    p: Seq<Seq<u8>>,
    p2: Seq<Seq<u8>>,
    ptr: PackedPtr,
    prev: Option<PackedPtr>,
    e: u64,
    outgoing: bool,
    n: nat,
    first: u64,
    k: nat,
    r: PackedPtr,
    nl: PackedPtr,
)
    requires
        list_ids(p, ptr, outgoing, n) is Some,
        list_on_chain(p, ptr, outgoing, n, first, k),
        spec_chain_find(p, ptr, prev, e, outgoing, n) == Ok::<Option<PackedPtr>, NexoraGraphEdgeError>(Some(r)),
        !ptr_is_null(ptr),
        edge_record(p[ptr_page_id(ptr) as int], ptr_slot(ptr) as int).edge_id != e,
        ({
            let y = edge_link(edge_record(p[ptr_page_id(r) as int], ptr_slot(r) as int), outgoing);
            nl == edge_link(edge_record(p[ptr_page_id(y) as int], ptr_slot(y) as int), outgoing)
        }),
        links_agree(p, p2, first, k, outgoing, Some((ptr_page_id(r), ptr_slot(r) as int)), nl),
    ensures
        list_ids(p2, ptr, outgoing, n) == Some(remove_first(list_ids(p, ptr, outgoing, n)->Some_0, e)),
    decreases n,
{
    let q = ptr_page_id(ptr);
    let j = ptr_slot(ptr) as int;
    let ix = edge_record(p[q as int], j).edge_id;
    let y = edge_link(edge_record(p[q as int], j), outgoing);
    let rest = list_ids(p, y, outgoing, (n - 1) as nat)->Some_0;
    let exc = Some((ptr_page_id(r), ptr_slot(r) as int));
    assert(on_chain(p, first, q, k));
    assert(list_ids(p, ptr, outgoing, n) == Some(seq![ix] + rest));
    assert((seq![ix] + rest)[0] == ix);
    assert((seq![ix] + rest).drop_first() =~= rest);
    assert(remove_first(seq![ix] + rest, e) == seq![ix] + remove_first(rest, e));
    lemma_list_no_return(p, ptr, outgoing, n, (n - 1) as nat);
    if !ptr_is_null(y) && edge_record(p[ptr_page_id(y) as int], ptr_slot(y) as int).edge_id == e {
        // the record after this one is the one taken out
        assert(spec_chain_find(p, y, Some(ptr), e, outgoing, (n - 1) as nat) == Ok::<Option<PackedPtr>, NexoraGraphEdgeError>(Some(ptr)));
        assert(r == ptr);
        let z = edge_link(edge_record(p[ptr_page_id(y) as int], ptr_slot(y) as int), outgoing);
        assert(nl == z);
        let tail = list_ids(p, z, outgoing, (n - 2) as nat)->Some_0;
        assert(rest == seq![e] + tail);
        assert((seq![e] + tail)[0] == e);
        assert((seq![e] + tail).drop_first() =~= tail);
        assert(edge_link(edge_record(p2[q as int], j), outgoing) == z);
        assert(edge_record(p2[q as int], j).edge_id == ix);
        assert(ptr_page_id(y) < p.len() && ptr_slot(y) < MAX_EDGE_RECORD_COUNT);
        assert(!list_visits(p, z, outgoing, (n - 2) as nat, q, j)) by {
            if list_visits(p, z, outgoing, (n - 2) as nat, q, j) {
                assert(list_visits(p, y, outgoing, (n - 1) as nat, q, j));
            }
        }
        assert(list_on_chain(p, y, outgoing, (n - 1) as nat, first, k));
        assert(list_on_chain(p, z, outgoing, (n - 2) as nat, first, k));
        lemma_list_ids_frame(p, p2, z, outgoing, (n - 2) as nat, first, k, exc, nl);
        lemma_list_ids_fuel(p2, z, outgoing, (n - 2) as nat, (n - 1) as nat);
        assert(list_ids(p2, ptr, outgoing, n) == Some(seq![ix] + tail));
    } else {
        // the record taken out lies further on
        assert(spec_chain_find(p, y, Some(ptr), e, outgoing, (n - 1) as nat) == Ok::<Option<PackedPtr>, NexoraGraphEdgeError>(Some(r)));
        assert(!ptr_is_null(y));
        lemma_chain_find_visits(p, y, Some(ptr), e, outgoing, (n - 1) as nat);
        assert(list_visits(p, y, outgoing, (n - 1) as nat, ptr_page_id(r), ptr_slot(r) as int));
        if ptr_page_id(r) == q && ptr_slot(r) as int == j {
            assert(list_visits(p, y, outgoing, (n - 1) as nat, q, j));
        }
        assert(exc != Some((q, j)));
        assert(edge_link(edge_record(p2[q as int], j), outgoing) == y);
        lemma_list_ids_unlink(p, p2, y, Some(ptr), e, outgoing, (n - 1) as nat, first, k, r, nl);
    }
}

/// The cursor that starts a scan of all edges.
pub open spec fn spec_edge_scan_start(f: NexoraFooter) -> PackedPtr {
    if f.first_edge_page == SENTINEL_PAGE_ID {
        PackedPtr(NULL_PTR_VALUE)
    } else {
        PackedPtr(packed(f.first_edge_page, 0))
    }
}

/// What one step along an edge list from `ptr` gives: the record there, and
/// the cursor moves to its link.
pub open spec fn spec_next_in_list(pages: Seq<Seq<u8>>, ptr: PackedPtr, outgoing: bool) -> (Result<Option<GraphEdgeRecord>, NexoraGraphEdgeError>, PackedPtr) {
    if ptr_is_null(ptr) {
        (Ok(None), ptr)
    } else {
        match spec_read_page(pages, ptr_page_id(ptr), true) {
            Err(e) => (Err(NexoraGraphEdgeError::Storage(e)), ptr),
            Ok(s) => if ptr_slot(ptr) >= MAX_EDGE_RECORD_COUNT {
                (Err(NexoraGraphEdgeError::Storage(NexoraStorageError::CorruptPage(ptr_page_id(ptr)))), ptr)
            } else {
                let e = edge_record(s, ptr_slot(ptr) as int);
                (Ok(Some(e)), edge_link(e, outgoing))
            },
        }
    }
}

/// What a scan step from `ptr` gives: the next live edge, in page chain order
/// and slot order, and where the cursor goes. A scan visits at most `fuel`
/// pages.
pub open spec fn spec_next_edge(pages: Seq<Seq<u8>>, ptr: PackedPtr, fuel: nat) -> (Result<Option<GraphEdgeRecord>, NexoraGraphEdgeError>, PackedPtr)
    decreases fuel,
{
    if ptr_is_null(ptr) {
        (Ok(None), ptr)
    } else if fuel == 0 {
        (Err(NexoraGraphEdgeError::Storage(NexoraStorageError::CorruptPage(ptr_page_id(ptr)))), ptr)
    } else {
        let pid = ptr_page_id(ptr);
        match spec_read_page(pages, pid, true) {
            Err(e) => (Err(NexoraGraphEdgeError::Storage(e)), ptr),
            Ok(s) => if ptr_slot(ptr) >= 64 {
                (Err(NexoraGraphEdgeError::Storage(NexoraStorageError::CorruptPage(pid))), ptr)
            } else {
                let occ = read_u64(s, 32);
                match lowest_set_from(occ, ptr_slot(ptr) as int) {
                    Some(t) => if t >= MAX_EDGE_RECORD_COUNT {
                        (Err(NexoraGraphEdgeError::Storage(NexoraStorageError::CorruptPage(pid))), ptr)
                    } else {
                        (
                            Ok(Some(edge_record(s, t))),
                            match lowest_set_from(occ, t + 1) {
                                Some(t2) => PackedPtr(packed(pid, t2 as u8)),
                                None => next_page_ptr(s),
                            },
                        )
                    },
                    None => if ptr_is_null(next_page_ptr(s)) {
                        (Ok(None), next_page_ptr(s))
                    } else {
                        spec_next_edge(pages, next_page_ptr(s), (fuel - 1) as nat)
                    },
                }
            },
        }
    }
}

/// A scan that has come to its end stays there: the cursor it leaves is
/// null, and stepping it again gives nothing, on any pages.
pub proof fn lemma_next_edge_end_stays(pages: Seq<Seq<u8>>, ptr: PackedPtr, fuel: nat, later: Seq<Seq<u8>>, fuel2: nat)
    requires
        spec_next_edge(pages, ptr, fuel).0 == Ok::<Option<GraphEdgeRecord>, NexoraGraphEdgeError>(None),
    ensures
        ptr_is_null(spec_next_edge(pages, ptr, fuel).1),
        spec_next_edge(later, spec_next_edge(pages, ptr, fuel).1, fuel2)
            == (Ok::<Option<GraphEdgeRecord>, NexoraGraphEdgeError>(None), spec_next_edge(pages, ptr, fuel).1),
    decreases fuel,
{
    if !ptr_is_null(ptr) && fuel > 0 {
        if let Ok(s) = spec_read_page(pages, ptr_page_id(ptr), true) {
            if !ptr_is_null(next_page_ptr(s)) {
                lemma_next_edge_end_stays(pages, next_page_ptr(s), (fuel - 1) as nat, later, fuel2);
            }
        }
    }
}

/// A scan yields only edges in occupied slots: deleted edges, whose slots
/// are freed, are skipped.
pub proof fn lemma_next_edge_is_live(pages: Seq<Seq<u8>>, ptr: PackedPtr, fuel: nat)
    ensures
        spec_next_edge(pages, ptr, fuel).0 matches Ok(Some(e)) ==> exists|q: u64, t: int|
            #![trigger edge_record(pages[q as int], t)]
            q < pages.len() && 0 <= t < MAX_EDGE_RECORD_COUNT && edge_slot_occupied(pages[q as int], t)
                && edge_record(pages[q as int], t) == e,
    decreases fuel,
{
    if !ptr_is_null(ptr) && fuel > 0 {
        let pid = ptr_page_id(ptr);
        if spec_read_page(pages, pid, true) is Ok && ptr_slot(ptr) < 64 {
            let s = pages[pid as int];
            lemma_lowest_set_at(read_u64(s, 32), ptr_slot(ptr) as int);
            match lowest_set_from(read_u64(s, 32), ptr_slot(ptr) as int) {
                Some(t) => {
                    if t < MAX_EDGE_RECORD_COUNT {
                        assert(edge_slot_occupied(pages[pid as int], t));
                        assert(edge_record(pages[pid as int], t) == edge_record(s, t));
                    }
                },
                None => {
                    lemma_next_edge_is_live(pages, next_page_ptr(s), (fuel - 1) as nat);
                },
            }
        }
    }
}

/// Whether slot `t` of page `q` holds a live edge at slot `from` of page
/// `pid` or past it, along the page chain from `pid`, within `fuel` pages.
pub open spec fn edge_live_from(pages: Seq<Seq<u8>>, pid: u64, from: int, fuel: nat, q: u64, t: int) -> bool
    decreases fuel,
{
    fuel > 0 && pid != SENTINEL_PAGE_ID && pid < pages.len() && {
        ||| (q == pid && from <= t < MAX_EDGE_RECORD_COUNT && edge_slot_occupied(pages[pid as int], t))
        ||| edge_live_from(pages, next_in_chain(pages, pid), 0, (fuel - 1) as nat, q, t)
    }
}

/// Whether slot `t` of page `q` holds a live edge that a scan from cursor
/// `ptr` has still to give.
pub open spec fn edge_scan_left(pages: Seq<Seq<u8>>, ptr: PackedPtr, fuel: nat, q: u64, t: int) -> bool {
    !ptr_is_null(ptr) && edge_live_from(pages, ptr_page_id(ptr), ptr_slot(ptr) as int, fuel, q, t)
}

/// Whether a scan cursor is in order: null, or at a slot of a page of the
/// store whose chain ends within `fuel` pages, each of which checks and
/// marks no slot past the last record slot as taken.
pub open spec fn edge_cursor_ok(pages: Seq<Seq<u8>>, ptr: PackedPtr, fuel: nat) -> bool {
    !ptr_is_null(ptr) ==> {
        &&& ptr_page_id(ptr) != SENTINEL_PAGE_ID
        &&& ptr_slot(ptr) < 64
        &&& chain_ends(pages, ptr_page_id(ptr), fuel)
        &&& forall|q: u64| #[trigger] on_chain(pages, ptr_page_id(ptr), q, fuel) ==> checksum_ok(pages[q as int])
            && forall|t: int| MAX_EDGE_RECORD_COUNT <= t < 64 ==> !#[trigger] edge_slot_occupied(pages[q as int], t)
    }
}

/// A live edge past a point of a chain lies on that chain.
proof fn lemma_edge_live_on_chain(pages: Seq<Seq<u8>>, pid: u64, from: int, fuel: nat, q: u64, t: int)
    requires
        edge_live_from(pages, pid, from, fuel, q, t),
    ensures
        on_chain(pages, pid, q, fuel),
    decreases fuel,
{
    if q != pid {
        lemma_edge_live_on_chain(pages, next_in_chain(pages, pid), 0, (fuel - 1) as nat, q, t);
    }
}

/// On a chain that ends, more fuel finds the same live edges.
proof fn lemma_edge_live_fuel(pages: Seq<Seq<u8>>, pid: u64, from: int, k: nat, m: nat)
    requires
        chain_ends(pages, pid, k),
        k <= m,
    ensures
        forall|q: u64, t: int|
            #![trigger edge_live_from(pages, pid, from, k, q, t)]
            #![trigger edge_live_from(pages, pid, from, m, q, t)]
            edge_live_from(pages, pid, from, k, q, t) == edge_live_from(pages, pid, from, m, q, t),
    decreases k,
{
    if pid != SENTINEL_PAGE_ID {
        let nx = next_in_chain(pages, pid);
        lemma_edge_live_fuel(pages, nx, 0, (k - 1) as nat, (m - 1) as nat);
        assert forall|q: u64, t: int| edge_live_from(pages, pid, from, k, q, t) == edge_live_from(pages, pid, from, m, q, t) by {
            assert(edge_live_from(pages, nx, 0, (k - 1) as nat, q, t) == edge_live_from(pages, nx, 0, (m - 1) as nat, q, t));
        }
    }
}

/// Slots of one page between two taken slots found by the bit search are
/// free, and a page with no taken slot left from a point has no live edge
/// there.
proof fn lemma_edge_page_live(s: Seq<u8>, from: int)
    requires
        0 <= from,
    ensures
        match lowest_set_from(read_u64(s, 32), from) {
            Some(t) => from <= t < 64 && edge_slot_occupied(s, t)
                && forall|j: int| from <= j < t ==> !#[trigger] edge_slot_occupied(s, j),
            None => forall|j: int| from <= j < 64 ==> !#[trigger] edge_slot_occupied(s, j),
        },
{
    let w = read_u64(s, 32);
    lemma_lowest_set_at(w, from);
    match lowest_set_from(w, from) {
        Some(t) => {
            assert forall|j: int| from <= j < t implies !#[trigger] edge_slot_occupied(s, j) by {
                assert(!word_bit(w, j as u64));
            }
        },
        None => {
            assert forall|j: int| from <= j < 64 implies !#[trigger] edge_slot_occupied(s, j) by {
                assert(!word_bit(w, j as u64));
            }
        },
    }
}

/// A scan step gives the first live edge left from its cursor, in page
/// chain order and slot order, and moves the cursor past it: what is left
/// to give is then exactly the live edges after it, all the edges that were
/// left but that one. A step that gives nothing leaves a null cursor and had
/// no live edge left. So a scan from the first edge page gives every live
/// edge of every page of the edge chain exactly once, and then stops.
pub proof fn lemma_next_edge_gives_next_live(pages: Seq<Seq<u8>>, ptr: PackedPtr, fuel: nat)
    requires
        pages.len() < 0xff_ffff_ffff_ffff,
        edge_cursor_ok(pages, ptr, fuel),
    ensures
        ({
            let r = spec_next_edge(pages, ptr, fuel);
            &&& r.0 is Ok
            &&& edge_cursor_ok(pages, r.1, fuel)
            &&& r.0 == Ok::<Option<GraphEdgeRecord>, NexoraGraphEdgeError>(None) ==> ptr_is_null(r.1)
                && forall|q: u64, t: int| !#[trigger] edge_scan_left(pages, ptr, fuel, q, t)
            &&& r.0 matches Ok(Some(rec)) ==> exists|q: u64, t: int| {
                &&& #[trigger] edge_scan_left(pages, ptr, fuel, q, t)
                &&& rec == edge_record(pages[q as int], t)
                &&& !edge_live_from(pages, q, t + 1, fuel, q, t)
                &&& forall|q2: u64, t2: int| #[trigger] edge_scan_left(pages, ptr, fuel, q2, t2)
                    == ((q2 == q && t2 == t) || edge_live_from(pages, q, t + 1, fuel, q2, t2))
                &&& forall|q2: u64, t2: int| #[trigger] edge_scan_left(pages, r.1, fuel, q2, t2)
                    == edge_live_from(pages, q, t + 1, fuel, q2, t2)
            }
        }),
    decreases fuel,
{
    if !ptr_is_null(ptr) {
        let p = ptr_page_id(ptr);
        let from = ptr_slot(ptr) as int;
        assert(on_chain(pages, p, p, fuel));
        let s = pages[p as int];
        let occ = read_u64(s, 32);
        let nx = next_in_chain(pages, p);
        let k1 = (fuel - 1) as nat;
        assert(chain_ends(pages, nx, k1));
        lemma_chain_no_return(pages, p, fuel, k1);
        let np = next_page_ptr(s);
        if nx != SENTINEL_PAGE_ID {
            lemma_packed_ptr_roundtrip(nx, 0);
            lemma_chain_ends_more(pages, nx, k1, fuel);
            assert forall|q: u64| #[trigger] on_chain(pages, nx, q, fuel) implies checksum_ok(pages[q as int])
                && forall|t: int| MAX_EDGE_RECORD_COUNT <= t < 64 ==> !#[trigger] edge_slot_occupied(pages[q as int], t) by {
                lemma_on_chain_within(pages, nx, q, k1, fuel);
                assert(on_chain(pages, p, q, fuel));
            }
            assert(edge_cursor_ok(pages, np, fuel));
            assert(edge_cursor_ok(pages, np, k1)) by {
                assert forall|q: u64| #[trigger] on_chain(pages, nx, q, k1) implies checksum_ok(pages[q as int])
                    && forall|t: int| MAX_EDGE_RECORD_COUNT <= t < 64 ==> !#[trigger] edge_slot_occupied(pages[q as int], t) by {
                    assert(on_chain(pages, p, q, fuel));
                }
            }
        }
        lemma_edge_live_fuel(pages, nx, 0, k1, fuel);
        lemma_edge_page_live(s, from);
        let r = spec_next_edge(pages, ptr, fuel);
        match lowest_set_from(occ, from) {
            Some(t) => {
                assert(t < MAX_EDGE_RECORD_COUNT);
                assert(r.0 == Ok::<Option<GraphEdgeRecord>, NexoraGraphEdgeError>(Some(edge_record(s, t))));
                lemma_edge_page_live(s, t + 1);
                assert forall|q2: u64, t2: int| #[trigger] edge_scan_left(pages, ptr, fuel, q2, t2)
                    == ((q2 == p && t2 == t) || edge_live_from(pages, p, t + 1, fuel, q2, t2)) by {}
                assert forall|q2: u64, t2: int| #[trigger] edge_scan_left(pages, r.1, fuel, q2, t2)
                    == edge_live_from(pages, p, t + 1, fuel, q2, t2) by {
                    match lowest_set_from(occ, t + 1) {
                        Some(t3) => {
                            lemma_packed_ptr_roundtrip(p, t3 as u8);
                            assert(ptr_page_id(r.1) == p && ptr_slot(r.1) as int == t3 && !ptr_is_null(r.1));
                            assert(edge_scan_left(pages, r.1, fuel, q2, t2) == edge_live_from(pages, p, t3, fuel, q2, t2));
                        },
                        None => {
                            assert(r.1 == np);
                            if nx != SENTINEL_PAGE_ID {
                                assert(edge_live_from(pages, nx, 0, k1, q2, t2) == edge_live_from(pages, nx, 0, fuel, q2, t2));
                                assert(edge_scan_left(pages, r.1, fuel, q2, t2) == edge_live_from(pages, nx, 0, fuel, q2, t2));
                            } else {
                                assert(ptr_is_null(np));
                                assert(!edge_live_from(pages, nx, 0, k1, q2, t2));
                            }
                        },
                    }
                }
                if edge_live_from(pages, nx, 0, k1, p, t) {
                    lemma_edge_live_on_chain(pages, nx, 0, k1, p, t);
                }
                assert(!edge_live_from(pages, p, t + 1, fuel, p, t));
                assert(edge_scan_left(pages, ptr, fuel, p, t));
                match lowest_set_from(occ, t + 1) {
                    Some(t3) => {
                        lemma_packed_ptr_roundtrip(p, t3 as u8);
                    },
                    None => {},
                }
                assert(edge_cursor_ok(pages, r.1, fuel));
            },
            None => {
                if nx != SENTINEL_PAGE_ID {
                    let ptr2 = np;
                    lemma_next_edge_gives_next_live(pages, ptr2, k1);
                    let r2 = spec_next_edge(pages, ptr2, k1);
                    assert(r == r2);
                    assert forall|q2: u64, t2: int| #[trigger] edge_scan_left(pages, ptr, fuel, q2, t2)
                        == edge_scan_left(pages, ptr2, k1, q2, t2) by {}
                    if !ptr_is_null(r2.1) {
                        lemma_chain_ends_more(pages, ptr_page_id(r2.1), k1, fuel);
                        lemma_edge_live_fuel(pages, ptr_page_id(r2.1), ptr_slot(r2.1) as int, k1, fuel);
                        assert forall|q: u64| #[trigger] on_chain(pages, ptr_page_id(r2.1), q, fuel) implies checksum_ok(pages[q as int])
                            && forall|t: int| MAX_EDGE_RECORD_COUNT <= t < 64 ==> !#[trigger] edge_slot_occupied(pages[q as int], t) by {
                            lemma_on_chain_within(pages, ptr_page_id(r2.1), q, k1, fuel);
                        }
                    }
                    if let Ok(Some(rec)) = r2.0 {
                        let (q, t) = choose|q: u64, t: int| {
                            &&& #[trigger] edge_scan_left(pages, ptr2, k1, q, t)
                            &&& rec == edge_record(pages[q as int], t)
                            &&& !edge_live_from(pages, q, t + 1, k1, q, t)
                            &&& forall|q2: u64, t2: int| #[trigger] edge_scan_left(pages, ptr2, k1, q2, t2)
                                == ((q2 == q && t2 == t) || edge_live_from(pages, q, t + 1, k1, q2, t2))
                            &&& forall|q2: u64, t2: int| #[trigger] edge_scan_left(pages, r2.1, k1, q2, t2)
                                == edge_live_from(pages, q, t + 1, k1, q2, t2)
                        };
                        lemma_edge_live_on_chain(pages, nx, 0, k1, q, t);
                        lemma_chain_ends_from(pages, nx, q, k1, k1);
                        lemma_edge_live_fuel(pages, q, t + 1, k1, fuel);
                        assert forall|q2: u64, t2: int| #[trigger] edge_scan_left(pages, ptr, fuel, q2, t2)
                            == ((q2 == q && t2 == t) || edge_live_from(pages, q, t + 1, fuel, q2, t2)) by {
                            assert(edge_scan_left(pages, ptr2, k1, q2, t2) == edge_scan_left(pages, ptr, fuel, q2, t2));
                        }
                        assert forall|q2: u64, t2: int| #[trigger] edge_scan_left(pages, r2.1, fuel, q2, t2)
                            == edge_live_from(pages, q, t + 1, fuel, q2, t2) by {
                            assert(edge_scan_left(pages, r2.1, k1, q2, t2) == edge_live_from(pages, q, t + 1, k1, q2, t2));
                        }
                        assert(edge_scan_left(pages, ptr, fuel, q, t));
                    }
                    if r2.0 == Ok::<Option<GraphEdgeRecord>, NexoraGraphEdgeError>(None) {
                        assert forall|q: u64, t: int| !#[trigger] edge_scan_left(pages, ptr, fuel, q, t) by {
                            assert(!edge_scan_left(pages, ptr2, k1, q, t));
                        }
                    }
                    assert(r.0 is Ok);
                    assert(edge_cursor_ok(pages, r.1, fuel));
                } else {
                    assert(ptr_is_null(np));
                    assert(r == (Ok::<Option<GraphEdgeRecord>, NexoraGraphEdgeError>(None), np));
                    assert forall|q: u64, t: int| !#[trigger] edge_scan_left(pages, ptr, fuel, q, t) by {
                        assert(!edge_live_from(pages, nx, 0, k1, q, t));
                    }
                }
            },
        }
    }
}

pub struct GraphEdgeStore<'a> {
    pub storage: &'a mut StorageManager,
}

impl<'a> GraphEdgeStore<'a> {
    /// The storage manager as it stands now.
    pub open spec fn sm(&self) -> StorageManager {
        *self.storage
    }

    pub fn new(storage: &'a mut StorageManager) -> (r: Self)
        ensures
            *r.storage == *old(storage),
            *final(r.storage) == *final(storage),
    {
        GraphEdgeStore { storage }
    }

    fn read_edge_page(&self, page_id: PageId) -> (r: Result<GraphEdgePage, NexoraGraphEdgeError>)
        requires
            self.sm().inv(),
        ensures
            match spec_read_page(self.sm().store@, page_id.0, true) {
                Err(e) => r == Err::<GraphEdgePage, NexoraGraphEdgeError>(NexoraGraphEdgeError::Storage(e)),
                Ok(s) => r is Ok && r->Ok_0@ == s && r->Ok_0.inv(),
            },
    {
        let mut buf: Vec<u8> = Vec::new();
        match self.storage.store.read_page(page_id, &mut buf, true) {
            Ok(()) => {},
            Err(e) => return Err(NexoraGraphEdgeError::Storage(e)),
        }
        Ok(GraphEdgePage::from_bytes(buf))
    }

    fn write_edge_page(&mut self, page_id: PageId, page: &GraphEdgePage)
        requires
            old(self).sm().inv(),
            page.inv(),
        ensures
            final(self).sm().inv(),
            *final(final(self).storage) == *final(old(self).storage),
            final(self).sm().store@ == pages_after_write(old(self).sm().store@, page_id.0 as int, stamped(page@)),
            final(self).sm().footer == old(self).sm().footer,
            final(self).sm().header == old(self).sm().header,
            final(self).sm().is_footer_dirty() == old(self).sm().is_footer_dirty(),
    {
        let _ = self.storage.store.write_page(page_id, page.as_bytes(), true);
    }

    /// The page and slot of edge `edge_id`.
    fn locate_edge(&self, edge_id: u64) -> (r: Result<(PageId, GraphEdgePage, usize), NexoraGraphEdgeError>)
        requires
            self.sm().inv(),
        ensures
            match spec_locate_edge(self.sm().store@, self.sm().footer, edge_id) {
                Err(e) => r == Err::<(PageId, GraphEdgePage, usize), NexoraGraphEdgeError>(e),
                Ok((pid, s, k)) => r is Ok && r->Ok_0.0.0 == pid && r->Ok_0.1@ == s && r->Ok_0.1.inv()
                    && r->Ok_0.2 == k && k < MAX_EDGE_RECORD_COUNT,
            },
    {
        let ghost pages = self.sm().store@;
        if edge_id >= self.storage.footer.next_edge_id {
            return Err(NexoraGraphEdgeError::EdgeNotFound);
        }
        let mut page_id_val = self.storage.footer.first_edge_page;
        let mut fuel = self.storage.store.page_count();
        while page_id_val != SENTINEL_PAGE_ID
            invariant
                self.sm().inv(),
                pages == self.sm().store@,
                edge_id < self.sm().footer.next_edge_id,
                spec_find_edge(pages, self.sm().footer.first_edge_page, edge_id, pages.len())
                    == spec_find_edge(pages, page_id_val, edge_id, fuel as nat),
            decreases fuel,
        {
            if fuel == 0 {
                return Err(NexoraGraphEdgeError::Storage(NexoraStorageError::CorruptPage(page_id_val)));
            }
            let page = self.read_edge_page(PageId(page_id_val))?;
            match page.find_edge_slot(edge_id) {
                Some(slot) => return Ok((PageId(page_id_val), page, slot)),
                None => {},
            }
            page_id_val = page.page_header().next_page_id;
            fuel = fuel - 1;
        }
        Err(NexoraGraphEdgeError::EdgeNotFound)
    }

    /// The record of edge `edge_id`.
    pub fn get_edge(&self, edge_id: u64) -> (r: Result<GraphEdgeRecord, NexoraGraphEdgeError>)
        requires
            self.sm().inv(),
        ensures
            r == spec_get_edge(self.sm().store@, self.sm().footer, edge_id),
    {
        let (_, page, slot) = self.locate_edge(edge_id)?;
        Ok(page.record(slot))
    }

    /// Points edge `edge_id` at the property chain that starts at `properties`.
    pub fn update_edge_properties(&mut self, edge_id: u64, properties: PackedPtr) -> (r: Result<(), NexoraGraphEdgeError>)
        requires
            old(self).sm().inv(),
        ensures
            final(self).sm().inv(),
            *final(final(self).storage) == *final(old(self).storage),
            final(self).sm().header == old(self).sm().header,
            final(self).sm().footer == old(self).sm().footer,
            final(self).sm().is_footer_dirty() == old(self).sm().is_footer_dirty(),
            ({
                let s = spec_update_edge(old(self).sm().store@, old(self).sm().footer, edge_id, with_edge_properties(properties));
                r == s.0 && final(self).sm().store@ == s.1
            }),
    {
        let (page_id, mut page, slot) = self.locate_edge(edge_id)?;
        page.set_record_properties(slot, properties);
        self.write_edge_page(page_id, &page);
        Ok(())
    }

    /// Sets the label and the weight bits of edge `edge_id`.
    pub fn update_label_and_weight(&mut self, edge_id: u64, label_id: u32, weight_bits: u64) -> (r: Result<(), NexoraGraphEdgeError>)
        requires
            old(self).sm().inv(),
        ensures
            final(self).sm().inv(),
            *final(final(self).storage) == *final(old(self).storage),
            final(self).sm().header == old(self).sm().header,
            final(self).sm().footer == old(self).sm().footer,
            final(self).sm().is_footer_dirty() == old(self).sm().is_footer_dirty(),
            ({
                let s = spec_update_edge(old(self).sm().store@, old(self).sm().footer, edge_id, with_label_and_weight(label_id, weight_bits));
                r == s.0 && final(self).sm().store@ == s.1
            }),
    {
        let (page_id, mut page, slot) = self.locate_edge(edge_id)?;
        page.set_record_label_and_weight(slot, label_id, weight_bits);
        self.write_edge_page(page_id, &page);
        Ok(())
    }

    /// A cursor at the start of the edge page chain.
    pub fn scan_cursor(&self) -> (r: Result<RecordCursor, NexoraGraphEdgeError>)
        ensures
            r == Ok::<RecordCursor, NexoraGraphEdgeError>(RecordCursor { next_ptr: spec_edge_scan_start(self.sm().footer) }),
    {
        let first_page = self.storage.footer.first_edge_page;
        if first_page == SENTINEL_PAGE_ID {
            return Ok(RecordCursor::new(PackedPtr::null()));
        }
        Ok(RecordCursor::new(PackedPtr::new(first_page, 0)))
    }

    /// A cursor at the head of the outgoing list of node `node_id`.
    pub fn outgoing_cursor(&mut self, node_id: u64) -> (r: Result<RecordCursor, NexoraGraphEdgeError>)
        requires
            old(self).sm().inv(),
        ensures
            final(self).sm() == old(self).sm(),
            *final(final(self).storage) == *final(old(self).storage),
            match node_list_head(old(self).sm().store@, old(self).sm().footer, node_id, true) {
                Err(e) => r == Err::<RecordCursor, NexoraGraphEdgeError>(e),
                Ok(p) => r == Ok::<RecordCursor, NexoraGraphEdgeError>(RecordCursor { next_ptr: p }),
            },
    {
        let mut nodes = GraphNodeStore::new(self.storage);
        match nodes.get_node(node_id) {
            Ok(record) => Ok(RecordCursor::new(record.first_out_edge)),
            Err(e) => Err(NexoraGraphEdgeError::from(e)),
        }
    }

    /// A cursor at the head of the incoming list of node `node_id`.
    pub fn incoming_cursor(&mut self, node_id: u64) -> (r: Result<RecordCursor, NexoraGraphEdgeError>)
        requires
            old(self).sm().inv(),
        ensures
            final(self).sm() == old(self).sm(),
            *final(final(self).storage) == *final(old(self).storage),
            match node_list_head(old(self).sm().store@, old(self).sm().footer, node_id, false) {
                Err(e) => r == Err::<RecordCursor, NexoraGraphEdgeError>(e),
                Ok(p) => r == Ok::<RecordCursor, NexoraGraphEdgeError>(RecordCursor { next_ptr: p }),
            },
    {
        let mut nodes = GraphNodeStore::new(self.storage);
        match nodes.get_node(node_id) {
            Ok(record) => Ok(RecordCursor::new(record.first_in_edge)),
            Err(e) => Err(NexoraGraphEdgeError::from(e)),
        }
    }

    fn cursor_next_in_list(&self, cursor: &mut RecordCursor, outgoing: bool) -> (r: Result<Option<GraphEdgeRecord>, NexoraGraphEdgeError>)
        requires
            self.sm().inv(),
        ensures
            ({
                let s = spec_next_in_list(self.sm().store@, old(cursor).next_ptr, outgoing);
                r == s.0 && final(cursor).next_ptr == s.1
            }),
    {
        if cursor.is_done() {
            return Ok(None);
        }
        let page_id_val = cursor.ptr().page_id();
        let page = self.read_edge_page(PageId(page_id_val))?;
        let slot = cursor.ptr().slot() as usize;
        if slot >= MAX_EDGE_RECORD_COUNT {
            return Err(NexoraGraphEdgeError::Storage(NexoraStorageError::CorruptPage(page_id_val)));
        }
        let edge = page.record(slot);
        if outgoing {
            cursor.advance_to(edge.next_outgoing);
        } else {
            cursor.advance_to(edge.next_incoming_address_packed);
        }
        Ok(Some(edge))
    }

    /// The edge at the cursor of an outgoing list; the cursor moves to the
    /// next outgoing edge.
    pub fn cursor_next_outgoing(&self, cursor: &mut RecordCursor) -> (r: Result<Option<GraphEdgeRecord>, NexoraGraphEdgeError>)
        requires
            self.sm().inv(),
        ensures
            ({
                let s = spec_next_in_list(self.sm().store@, old(cursor).next_ptr, true);
                r == s.0 && final(cursor).next_ptr == s.1
            }),
    {
        self.cursor_next_in_list(cursor, true)
    }

    /// The edge at the cursor of an incoming list; the cursor moves to the
    /// next incoming edge.
    pub fn cursor_next_incoming(&self, cursor: &mut RecordCursor) -> (r: Result<Option<GraphEdgeRecord>, NexoraGraphEdgeError>)
        requires
            self.sm().inv(),
        ensures
            ({
                let s = spec_next_in_list(self.sm().store@, old(cursor).next_ptr, false);
                r == s.0 && final(cursor).next_ptr == s.1
            }),
    {
        self.cursor_next_in_list(cursor, false)
    }
    /// The next live edge of a scan over all edge pages, in page chain order
    /// and slot order; the cursor moves past it.
    pub fn cursor_next_edge(&self, cursor: &mut RecordCursor) -> (r: Result<Option<GraphEdgeRecord>, NexoraGraphEdgeError>)
        requires
            self.sm().inv(),
        ensures
            ({
                let s = spec_next_edge(self.sm().store@, old(cursor).next_ptr, self.sm().store@.len());
                r == s.0 && final(cursor).next_ptr == s.1
            }),
    {
        let ghost pages = self.sm().store@;
        let mut fuel = self.storage.store.page_count();
        loop
            invariant
                self.sm().inv(),
                pages == self.sm().store@,
                spec_next_edge(pages, old(cursor).next_ptr, pages.len()) == spec_next_edge(pages, cursor.next_ptr, fuel as nat),
            decreases fuel,
        {
            if cursor.is_done() {
                return Ok(None);
            }
            if fuel == 0 {
                return Err(NexoraGraphEdgeError::Storage(NexoraStorageError::CorruptPage(cursor.ptr().page_id())));
            }
            let page_id_val = cursor.ptr().page_id();
            let slot_start = cursor.ptr().slot();
            let page = self.read_edge_page(PageId(page_id_val))?;
            if slot_start >= 64 {
                return Err(NexoraGraphEdgeError::Storage(NexoraStorageError::CorruptPage(page_id_val)));
            }
            let occupied = page.graph_page_header().occupied;
            let start: u64 = slot_start as u64;
            let mask: u64 = if start == 0 {
                0
            } else {
                assert(1u64 << start >= 1) by (bit_vector)
                    requires
                        start < 64,
                ;
                (1u64 << start) - 1
            };
            assert(mask == ((1u64 << start) - 1) as u64) by (bit_vector)
                requires
                    start < 64,
                    start == 0 ==> mask == 0,
                    start != 0 ==> mask == ((1u64 << start) - 1) as u64,
            ;
            let bits = occupied & !mask;
            proof {
                lemma_mask_below(occupied, start);
                lemma_lowest_set_from_masked(occupied, bits, start as int);
            }
            if bits != 0 {
                let slot = bits.trailing_zeros() as usize;
                if slot >= MAX_EDGE_RECORD_COUNT {
                    return Err(NexoraGraphEdgeError::Storage(NexoraStorageError::CorruptPage(page_id_val)));
                }
                let record = page.record(slot);
                let remaining = bits & (bits - 1);
                proof {
                    lemma_clear_lowest(bits);
                    lemma_lowest_set_at(occupied, start as int);
                    let t = slot as int;
                    assert forall|j: u64| j < 64 implies #[trigger] word_bit(remaining, j) == (word_bit(occupied, j) && j >= t + 1) by {
                        if start <= j < t {
                            assert(!word_bit(occupied, j));
                        }
                    }
                    lemma_lowest_set_from_masked(occupied, remaining, t + 1);
                }
                let next_ptr = if remaining != 0 {
                    PackedPtr::new(page_id_val, remaining.trailing_zeros() as u8)
                } else {
                    let next_page = page.page_header().next_page_id;
                    if next_page == SENTINEL_PAGE_ID {
                        PackedPtr::null()
                    } else {
                        PackedPtr::new(next_page, 0)
                    }
                };
                cursor.advance_to(next_ptr);
                return Ok(Some(record));
            } else {
                let next_page = page.page_header().next_page_id;
                if next_page == SENTINEL_PAGE_ID {
                    cursor.advance_to(PackedPtr::null());
                    return Ok(None);
                }
                cursor.advance_to(PackedPtr::new(next_page, 0));
                fuel = fuel - 1;
            }
        }
    }

    /// Stores `edge` in a new edge page put at the front of the chain.
    fn insert_into_new_page(&mut self, edge: GraphEdgeRecord) -> (r: Result<(PageId, usize), NexoraGraphEdgeError>)
        requires
            old(self).sm().inv(),
            old(self).sm().can_allocate(1),
        ensures
            final(self).sm().inv(),
            *final(final(self).storage) == *final(old(self).storage),
            final(self).sm().header == old(self).sm().header,
            ({
                let s = spec_edge_insert_into_new_page(old(self).sm().store@, old(self).sm().footer, edge);
                &&& r == s.0
                &&& final(self).sm().store@ == s.1
                &&& final(self).sm().footer == s.2
                &&& final(self).sm().is_footer_dirty() == (old(self).sm().is_footer_dirty() || s.3)
            }),
    {
        let new_page_id = match self.storage.allocate_page() {
            Ok(p) => p,
            Err(e) => return Err(NexoraGraphEdgeError::Storage(e)),
        };
        let old_first = self.storage.footer.first_edge_page;
        let mut page = GraphEdgePage::zeroed();
        assert(page@ =~= zero_bytes());
        page.init(new_page_id.as_u64(), old_first);
        let slot = page.insert_edge(edge)?;
        self.write_edge_page(new_page_id, &page);
        self.storage.footer.first_edge_page = new_page_id.as_u64();
        self.storage.mark_footer_dirty();
        Ok((new_page_id, slot))
    }

    /// Stores `edge` in the first edge page with a free slot, or in a new page.
    fn insert_into_page(&mut self, edge: GraphEdgeRecord) -> (r: Result<(PageId, usize), NexoraGraphEdgeError>)
        requires
            old(self).sm().inv(),
            old(self).sm().can_allocate(1),
        ensures
            final(self).sm().inv(),
            *final(final(self).storage) == *final(old(self).storage),
            final(self).sm().header == old(self).sm().header,
            final(self).sm().footer.edge_count == old(self).sm().footer.edge_count,
            final(self).sm().footer.next_edge_id == old(self).sm().footer.next_edge_id,
            ({
                let s = spec_edge_insert_into_page(old(self).sm().store@, old(self).sm().footer, edge,
                    old(self).sm().footer.first_edge_page, old(self).sm().store@.len());
                &&& r == s.0
                &&& final(self).sm().store@ == s.1
                &&& final(self).sm().footer == s.2
                &&& final(self).sm().is_footer_dirty() == (old(self).sm().is_footer_dirty() || s.3)
            }),
    {
        let ghost pages = self.sm().store@;
        let ghost f = self.sm().footer;
        let mut page_id_val = self.storage.footer.first_edge_page;
        let mut fuel = self.storage.store.page_count();
        while page_id_val != SENTINEL_PAGE_ID
            invariant
                self.sm().inv(),
                self.sm() == *old(self).storage,
                *final(self.storage) == *final(old(self).storage),
                pages == self.sm().store@,
                f == self.sm().footer,
                spec_edge_insert_into_page(pages, f, edge, f.first_edge_page, pages.len())
                    == spec_edge_insert_into_page(pages, f, edge, page_id_val, fuel as nat),
            decreases fuel,
        {
            if fuel == 0 {
                return Err(NexoraGraphEdgeError::Storage(NexoraStorageError::CorruptPage(page_id_val)));
            }
            let page_id = PageId(page_id_val);
            let mut page = self.read_edge_page(page_id)?;
            match page.insert_edge(edge) {
                Ok(slot) => {
                    self.write_edge_page(page_id, &page);
                    return Ok((page_id, slot));
                },
                Err(_) => {},
            }
            page_id_val = page.page_header().next_page_id;
            fuel = fuel - 1;
        }
        self.insert_into_new_page(edge)
    }

    /// Adds an edge from `src_node_id` to `dst_node_id`; returns its id. The
    /// weight is given by its IEEE-754 bits.
    pub fn insert_edge(&mut self, src_node_id: u64, dst_node_id: u64, label_id: u32, weight_bits: u64) -> (r: Result<u64, NexoraGraphEdgeError>)
        requires
            old(self).sm().inv(),
            old(self).sm().can_allocate(1),
            old(self).sm().footer.next_edge_id < u64::MAX,
            old(self).sm().footer.edge_count < u64::MAX,
        ensures
            final(self).sm().inv(),
            *final(final(self).storage) == *final(old(self).storage),
            final(self).sm().header == old(self).sm().header,
            ({
                let s = spec_insert_edge(old(self).sm().store@, old(self).sm().footer, src_node_id, dst_node_id, label_id, weight_bits);
                &&& r == s.0
                &&& final(self).sm().store@ == s.1
                &&& final(self).sm().footer == s.2
                &&& final(self).sm().is_footer_dirty() == (old(self).sm().is_footer_dirty() || s.3)
            }),
    {
        let edge_id = self.storage.footer.next_edge_id;
        let old_first_out = {
            let mut nodes = GraphNodeStore::new(self.storage);
            match nodes.get_node(src_node_id) {
                Ok(rec) => rec.first_out_edge,
                Err(e) => return Err(NexoraGraphEdgeError::from(e)),
            }
        };
        let old_first_in = {
            let mut nodes = GraphNodeStore::new(self.storage);
            match nodes.get_node(dst_node_id) {
                Ok(rec) => rec.first_in_edge,
                Err(e) => return Err(NexoraGraphEdgeError::from(e)),
            }
        };
        let edge = GraphEdgeRecord::new(edge_id, src_node_id, dst_node_id, label_id, weight_bits, old_first_out, old_first_in);
        let (edge_page_id, slot) = self.insert_into_page(edge)?;
        let edge_ptr = PackedPtr::new(edge_page_id.as_u64(), slot as u8);
        {
            let mut nodes = GraphNodeStore::new(self.storage);
            match nodes.update_out_edge(src_node_id, edge_ptr) {
                Ok(()) => {},
                Err(e) => return Err(NexoraGraphEdgeError::from(e)),
            }
        }
        {
            let mut nodes = GraphNodeStore::new(self.storage);
            match nodes.update_in_edge(dst_node_id, edge_ptr) {
                Ok(()) => {},
                Err(e) => return Err(NexoraGraphEdgeError::from(e)),
            }
        }
        self.storage.footer.next_edge_id = edge_id + 1;
        self.storage.footer.edge_count = self.storage.footer.edge_count + 1;
        self.storage.mark_footer_dirty();
        Ok(edge_id)
    }

    /// Unlinks edge `edge_id` from the outgoing or incoming list of node
    /// `node_id`, putting `next` in its place.
    fn remove_from_chain(&mut self, node_id: u64, edge_id: u64, next: PackedPtr, outgoing: bool) -> (r: Result<(), NexoraGraphEdgeError>)
        requires
            old(self).sm().inv(),
        ensures
            final(self).sm().inv(),
            *final(final(self).storage) == *final(old(self).storage),
            final(self).sm().header == old(self).sm().header,
            final(self).sm().footer == old(self).sm().footer,
            final(self).sm().is_footer_dirty() == old(self).sm().is_footer_dirty(),
            ({
                let s = spec_remove_from_chain(old(self).sm().store@, old(self).sm().footer, node_id, edge_id, next, outgoing);
                r == s.0 && final(self).sm().store@ == s.1
            }),
    {
        let ghost pages = self.sm().store@;
        let head = {
            let mut nodes = GraphNodeStore::new(self.storage);
            match nodes.get_node(node_id) {
                Ok(rec) => if outgoing {
                    rec.first_out_edge
                } else {
                    rec.first_in_edge
                },
                Err(e) => return Err(NexoraGraphEdgeError::from(e)),
            }
        };
        let n: u64 = self.storage.store.page_count() as u64;
        let mut fuel: u64 = match n.checked_mul(MAX_EDGE_RECORD_COUNT as u64) {
            Some(v) => v,
            None => u64::MAX,
        };
        let mut ptr = head;
        let mut prev: Option<PackedPtr> = None;
        while !ptr.is_null()
            invariant
                self.sm().inv(),
                self.sm() == *old(self).storage,
                *final(self.storage) == *final(old(self).storage),
                pages == self.sm().store@,
                node_list_head(pages, self.sm().footer, node_id, outgoing) == Ok::<PackedPtr, NexoraGraphEdgeError>(head),
                prev matches Some(p) ==> ptr_slot(p) < MAX_EDGE_RECORD_COUNT,
                spec_chain_find(pages, head, None, edge_id, outgoing, edge_chain_fuel(pages.len()))
                    == spec_chain_find(pages, ptr, prev, edge_id, outgoing, fuel as nat),
            decreases fuel,
        {
            if fuel == 0 {
                return Err(NexoraGraphEdgeError::Storage(NexoraStorageError::CorruptPage(ptr.page_id())));
            }
            let cur_page = self.read_edge_page(PageId(ptr.page_id()))?;
            let cur_slot = ptr.slot() as usize;
            if cur_slot >= MAX_EDGE_RECORD_COUNT {
                return Err(NexoraGraphEdgeError::Storage(NexoraStorageError::CorruptPage(ptr.page_id())));
            }
            let rec = cur_page.record(cur_slot);
            if rec.edge_id == edge_id {
                match prev {
                    None => {
                        let mut nodes = GraphNodeStore::new(self.storage);
                        let u = if outgoing {
                            nodes.update_out_edge(node_id, next)
                        } else {
                            nodes.update_in_edge(node_id, next)
                        };
                        match u {
                            Ok(()) => {},
                            Err(e) => return Err(NexoraGraphEdgeError::from(e)),
                        }
                    },
                    Some(p) => {
                        let prev_page_id = PageId(p.page_id());
                        let mut prev_page = self.read_edge_page(prev_page_id)?;
                        let field: usize = if outgoing { 32 } else { 40 };
                        prev_page.set_record_u64(p.slot() as usize, field, next.0);
                        self.write_edge_page(prev_page_id, &prev_page);
                    },
                }
                return Ok(());
            }
            prev = Some(ptr);
            ptr = if outgoing {
                rec.next_outgoing
            } else {
                rec.next_incoming_address_packed
            };
            fuel = fuel - 1;
        }
        Err(NexoraGraphEdgeError::EdgeNotFound)
    }

    fn remove_from_outgoing_chain(&mut self, src_node_id: u64, edge_id: u64, next_outgoing: PackedPtr) -> (r: Result<(), NexoraGraphEdgeError>)
        requires
            old(self).sm().inv(),
        ensures
            final(self).sm().inv(),
            *final(final(self).storage) == *final(old(self).storage),
            final(self).sm().header == old(self).sm().header,
            final(self).sm().footer == old(self).sm().footer,
            final(self).sm().is_footer_dirty() == old(self).sm().is_footer_dirty(),
            ({
                let s = spec_remove_from_chain(old(self).sm().store@, old(self).sm().footer, src_node_id, edge_id, next_outgoing, true);
                r == s.0 && final(self).sm().store@ == s.1
            }),
    {
        self.remove_from_chain(src_node_id, edge_id, next_outgoing, true)
    }

    fn remove_from_incoming_chain(&mut self, dst_node_id: u64, edge_id: u64, next_incoming: PackedPtr) -> (r: Result<(), NexoraGraphEdgeError>)
        requires
            old(self).sm().inv(),
        ensures
            final(self).sm().inv(),
            *final(final(self).storage) == *final(old(self).storage),
            final(self).sm().header == old(self).sm().header,
            final(self).sm().footer == old(self).sm().footer,
            final(self).sm().is_footer_dirty() == old(self).sm().is_footer_dirty(),
            ({
                let s = spec_remove_from_chain(old(self).sm().store@, old(self).sm().footer, dst_node_id, edge_id, next_incoming, false);
                r == s.0 && final(self).sm().store@ == s.1
            }),
    {
        self.remove_from_chain(dst_node_id, edge_id, next_incoming, false)
    }

    /// Deletes edge `edge_id`: tombstones its record and unlinks it from both
    /// of its lists.
    pub fn delete_edge(&mut self, edge_id: u64) -> (r: Result<(), NexoraGraphEdgeError>)
        requires
            old(self).sm().inv(),
            spec_delete_edge(old(self).sm().store@, old(self).sm().footer, edge_id).0 is Ok
                ==> old(self).sm().footer.edge_count > 0,
        ensures
            final(self).sm().inv(),
            *final(final(self).storage) == *final(old(self).storage),
            final(self).sm().header == old(self).sm().header,
            ({
                let s = spec_delete_edge(old(self).sm().store@, old(self).sm().footer, edge_id);
                &&& r == s.0
                &&& final(self).sm().store@ == s.1
                &&& final(self).sm().footer == s.2
                &&& final(self).sm().is_footer_dirty() == (old(self).sm().is_footer_dirty() || s.3)
            }),
    {
        let (page_id, mut page, slot) = self.locate_edge(edge_id)?;
        let edge = page.record(slot);
        page.delete_slot(slot);
        self.write_edge_page(page_id, &page);
        self.remove_from_outgoing_chain(edge.src_node_id(), edge_id, edge.next_outgoing)?;
        self.remove_from_incoming_chain(edge.dst_node_id(), edge_id, edge.next_incoming_address_packed)?;
        self.storage.footer.edge_count = self.storage.footer.edge_count - 1;
        self.storage.mark_footer_dirty();
        Ok(())
    }
}

} // verus!
