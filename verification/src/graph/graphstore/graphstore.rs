//! The graph as a whole: nodes and edges with labels, over one storage manager.
use vstd::prelude::*;
use vstd::utf8::{valid_utf8, decode_utf8};
use vstd::string::StringSliceAdditionalSpecFns;

use crate::storage::error::NexoraStorageError;
use crate::storage::models::NexoraFooter;
use crate::storage::storage_manager::{
    StorageManager, footer_contents, lemma_close_then_reopen, same_graph_counters, spec_read_footer, spec_read_header,
};
use crate::storage::models::NexoraHeader;
use crate::storage::constants::PAGE_SIZE;
use crate::graph::edge::graph_edge_store::{
    GraphEdgeStore, edge_insert_ready, edge_pages_apart, lemma_edge_insert_ready_frame, lemma_find_edge_found,
    lemma_insert_edge_then_get, new_edge_record, node_list_head, spec_edge_scan_start, spec_insert_edge, spec_locate_edge,
    spec_next_edge, spec_next_in_list,
};
use crate::graph::edge::error::NexoraGraphEdgeError;
use crate::graph::edge::page::GraphEdgeRecord;
use crate::graph::graphstore::error::NexoraGraphStoreError;
use crate::graph::label::error::NexoraGraphLabelError;
use crate::graph::label::graph_label_store::{
    LabelStore, bytes_equal, label_buffer, label_store_ok, label_walk_avoids, labels_in_order, labels_stored, lemma_add_label_effects,
    lemma_find_label_ok_frame, lemma_find_label_ok_fuel, lemma_find_label_write_frame, lemma_find_named_found,
    lemma_insert_label_twice, spec_find_label_named, spec_find_label_ptr, spec_get_label,
    spec_insert_label, string_area,
};
use crate::graph::models::Node;
use crate::graph::node::graph_node_store::{
    GraphNodeStore, Outcome, lemma_get_node_write_frame, lemma_insert_node_then_get, lemma_insert_node_writes,
    lemma_node_insert_ready_frame, new_node_record, node_index_add_walk, node_insert_ready, node_lookup_clear, node_store_ok,
    node_pages_apart, spec_get_node, spec_insert_node, spec_next_node, spec_node_page_id, spec_node_scan_start,
};
use crate::graph::node::constants::MAX_RECORD_COUNT;
use crate::graph::node::error::NexoraGraphNodeError;
use crate::index::page_index::node_page_index_store::{index_walk_clear, lemma_walk_same_pages, spec_dir_page_id, walk_avoids};
use crate::storage::models::PageId;
use crate::storage::page_store::{lemma_on_chain_in_store, on_chain};
use crate::graph::node::page::GraphNodeRecord;
use crate::storage::page_store::{pages_after_write, stamped};
use crate::storage::models::footer_page_bytes;
use crate::graph::record::types::{PackedPtr, RecordCursor, NULL_PTR_VALUE, lemma_packed_ptr_roundtrip};
use crate::graph::string::constants::MAX_STRING_LENGTH;
use crate::graph::string::graph_string_store::{
    STRING_CHAIN_FUEL, chain_holds, chunk_count, lemma_chain_frame, lemma_chain_get, lemma_no_free_pages_string_store_ok,
    lemma_string_get_write_frame, string_chain_avoids, string_store_ok,
};
use crate::utils::codec::put_bytes;

verus! {

/// Calls `std::str::from_utf8`, which accepts exactly the byte strings that
/// are valid UTF-8 and then gives the text they encode.
#[verifier::external_body]
fn utf8_text(bytes: &[u8]) -> (r: Option<&str>)
    ensures
        r is Some <==> valid_utf8(bytes@),
        r matches Some(s) ==> s@ == decode_utf8(bytes@),
{
    std::str::from_utf8(bytes).ok()
}

/// The label id for `name`: what inserting the label gives, with its error
/// as a graph error.
pub open spec fn spec_label_id_for(pages: Seq<Seq<u8>>, f: NexoraFooter, name: Seq<u8>) -> Outcome<u32, NexoraGraphStoreError> {
    let l = spec_insert_label(pages, f, name);
    match l.0 {
        Err(e) => (Err(NexoraGraphStoreError::Label(e)), l.1, l.2, l.3),
        Ok(id) => (Ok(id), l.1, l.2, l.3),
    }
}

/// Asking twice for the id of the same label name gives the same id, and the
/// second call changes nothing: each name gets one label. Stated for a store
/// in order for adding labels (see `label_store_ok`) whose labels all name
/// strings stored in its string area; page ids must stay below the null
/// pointer's.
pub proof fn lemma_label_id_for_twice(pages: Seq<Seq<u8>>, f: NexoraFooter, name: Seq<u8>)
    requires
        label_store_ok(pages, f),
        labels_stored(pages, f),
        f.page_count + chunk_count(name.len() as int) + 1 < 0xff_ffff_ffff_ffff,
        spec_label_id_for(pages, f, name).0 is Ok,
    ensures
        ({
            let a = spec_label_id_for(pages, f, name);
            let b = spec_label_id_for(a.1, a.2, name);
            &&& b.0 == a.0
            &&& b.1 == a.1
            &&& b.2 == a.2
            &&& !b.3
        }),
{
    lemma_insert_label_twice(pages, f, name);
}

/// Reading a node right after adding it with a label gives that label back.
/// Stated for a store in order for adding labels whose labels all name
/// strings in its string area (see `label_store_ok` and `labels_stored`), in
/// order for adding a node (see `node_insert_ready`), and whose node pages and
/// index pages lie off its string and label chains (see `node_pages_apart`);
/// page ids must stay below the null pointer's.
pub proof fn lemma_graph_insert_node_then_get(pages: Seq<Seq<u8>>, f: NexoraFooter, label: Seq<u8>)
    requires
        label_store_ok(pages, f),
        labels_stored(pages, f),
        node_insert_ready(pages, f),
        node_pages_apart(pages, f),
        f.page_count + chunk_count(label.len() as int) + 3 < 0xff_ffff_ffff_ffff,
        spec_graph_insert_node(pages, f, label).0 is Ok,
    ensures
        ({
            let s = spec_graph_insert_node(pages, f, label);
            spec_node_label_bytes(s.1, s.2, s.0->Ok_0) == Ok::<Seq<u8>, NexoraGraphStoreError>(label)
        }),
{
    let kk = pages.len() as nat;
    let fs = f.first_string_page;
    let fl = f.first_label_page;
    let fi = f.first_page_index_page;
    let last = f.last_node_page;
    let id = f.next_node_id;
    let w = string_area(pages, fs);
    let buf = label_buffer();
    let count = f.label_pages_count;
    let l = spec_label_id_for(pages, f, label);
    let lid = l.0->Ok_0;
    let s1 = l.1;
    let f1 = l.2;
    let found = spec_find_label_named(pages, f, label, 0, count as nat);
    // the store after the label is found or added is still in order for the node
    if found == Ok::<Option<u32>, NexoraGraphLabelError>(None) {
        lemma_add_label_effects(pages, f, label, buf);
        lemma_node_insert_ready_frame(pages, f, s1, f1);
    }
    let n = spec_insert_node(s1, f1, lid, PackedPtr(NULL_PTR_VALUE));
    let s2 = n.1;
    let f2 = n.2;
    lemma_insert_node_then_get(s1, f1, lid, PackedPtr(NULL_PTR_VALUE));
    lemma_insert_node_writes(s1, f1, lid, PackedPtr(NULL_PTR_VALUE));
    // the pages the node insert writes lie off the string and label areas
    let ka = node_index_add_walk(id);
    if id % MAX_RECORD_COUNT as u64 == 0 && found == Ok::<Option<u32>, NexoraGraphLabelError>(None) {
        assert forall|y: u64| y < pages.len() && s1[y as int] != pages[y as int] implies #[trigger] walk_avoids(pages, fi, ka, y) by {
            assert(on_chain(pages, fs, y, kk) || on_chain(pages, fl, y, kk));
        }
        lemma_walk_same_pages(pages, s1, fi, ka, last);
    }
    assert forall|q: u64| q < s1.len() && s2[q as int] != s1[q as int]
        implies q < pages.len() && !on_chain(pages, fs, q, kk) && !on_chain(pages, fl, q, kk) by {
        if q == last {
            if on_chain(pages, fs, q, kk) || on_chain(pages, fl, q, kk) {
                assert(q != last);
            }
            assert(q < pages.len());
        } else {
            let d = spec_dir_page_id(pages, fi, ka);
            assert(spec_dir_page_id(s1, fi, ka) == d);
            assert(index_walk_clear(pages, fi, (id / MAX_RECORD_COUNT as u64) as usize as int, last));
            if on_chain(pages, fs, q, kk) || on_chain(pages, fl, q, kk) {
                assert(d != Ok::<PageId, NexoraStorageError>(PageId(q)));
            }
        }
    }
    let s = spec_graph_insert_node(pages, f, label);
    assert(s.1 == s2 && s.2 == f2);
    assert(s.0 == Ok::<u64, NexoraGraphStoreError>(id));
    // the label reads back
    if found == Ok::<Option<u32>, NexoraGraphLabelError>(None) {
        let p = spec_find_label_ptr(s1, f1.first_label_page, lid, s1.len());
        assert forall|q: u64| #[trigger] on_chain(s1, f1.first_label_page, q, s1.len()) implies s2[q as int] == s1[q as int] by {
            lemma_on_chain_in_store(s1, f1.first_label_page, q, s1.len());
        }
        lemma_find_label_ok_frame(s1, s2, f1.first_label_page, lid, s1.len());
        lemma_find_label_ok_fuel(s2, f1.first_label_page, lid, s1.len(), s2.len());
        lemma_chain_frame(s1, s2, p->Ok_0, label, 0, w);
        lemma_chain_get(s2, p->Ok_0, label, 0, w, buf, 0, STRING_CHAIN_FUEL as nat);
        assert(put_bytes(buf, 0, label).subrange(0, label.len() as int) =~= label);
        assert(f2.first_label_page == f1.first_label_page);
        assert(spec_find_label_ptr(s2, f2.first_label_page, lid, s2.len()) == p);
        assert(spec_get_label(s2, f2, lid, buf)
            == (Ok::<u16, NexoraGraphLabelError>(label.len() as u16), put_bytes(buf, 0, label)));
        assert(spec_get_node(s2, f2, id) == Ok::<GraphNodeRecord, NexoraGraphNodeError>(new_node_record(id, lid, PackedPtr(NULL_PTR_VALUE))));
    } else {
        lemma_find_named_found(pages, f, label, 0, count as nat);
        let j = lid;
        let p = spec_find_label_ptr(pages, fl, j, pages.len());
        let nm = choose|nm: Seq<u8>| nm.len() <= MAX_STRING_LENGTH && chain_holds(pages, p->Ok_0, nm, 0, w);
        assert forall|q: u64| #[trigger] on_chain(pages, fl, q, pages.len() as nat) implies s2[q as int] == pages[q as int] by {
            lemma_on_chain_in_store(pages, fl, q, kk);
        }
        lemma_find_label_ok_frame(pages, s2, fl, j, pages.len() as nat);
        lemma_find_label_ok_fuel(s2, fl, j, pages.len() as nat, s2.len());
        lemma_chain_frame(pages, s2, p->Ok_0, nm, 0, w);
        lemma_chain_get(pages, p->Ok_0, nm, 0, w, buf, 0, STRING_CHAIN_FUEL as nat);
        lemma_chain_get(s2, p->Ok_0, nm, 0, w, buf, 0, STRING_CHAIN_FUEL as nat);
        assert(put_bytes(buf, 0, nm).subrange(0, nm.len() as int) =~= nm);
        assert(spec_get_label(pages, f, j, buf) == (Ok::<u16, NexoraGraphLabelError>(nm.len() as u16), put_bytes(buf, 0, nm)));
        assert(nm == label);
        assert(s1 == pages && f1 == f);
        assert(f2.first_label_page == fl);
        assert(spec_get_label(s2, f2, lid, buf)
            == (Ok::<u16, NexoraGraphLabelError>(label.len() as u16), put_bytes(buf, 0, label)));
        assert(spec_get_node(s2, f2, id) == Ok::<GraphNodeRecord, NexoraGraphNodeError>(new_node_record(id, lid, PackedPtr(NULL_PTR_VALUE))));
    }
}

/// Walking the outgoing list of a node right after adding an edge from it
/// gives that edge first: its ends, label and weight, linked to the node's
/// earlier first edge. Stated for a store in order for adding labels (see
/// `label_store_ok`) and for adding the edge (see `edge_insert_ready`), whose
/// two nodes read back and whose pages for the edge lie off its string and
/// label chains (see `edge_pages_apart`); page ids must stay below the null
/// pointer's.
pub proof fn lemma_graph_insert_edge_then_next_outgoing(
    pages: Seq<Seq<u8>>,
    f: NexoraFooter,
    src: u64,
    dst: u64,
    label: Seq<u8>,
    weight_bits: u64,
)
    requires
        label_store_ok(pages, f),
        edge_insert_ready(pages, f, src, dst),
        edge_pages_apart(pages, f, src, dst),
        spec_get_node(pages, f, src) is Ok,
        spec_get_node(pages, f, dst) is Ok,
        f.page_count + chunk_count(label.len() as int) + 2 < 0xff_ffff_ffff_ffff,
        spec_graph_insert_edge(pages, f, src, dst, label, weight_bits).0 is Ok,
    ensures
        ({
            let s = spec_graph_insert_edge(pages, f, src, dst, label, weight_bits);
            let label_id = spec_label_id_for(pages, f, label).0->Ok_0;
            let srec = spec_get_node(pages, f, src)->Ok_0;
            let drec = spec_get_node(pages, f, dst)->Ok_0;
            let head = node_list_head(s.1, s.2, src, true);
            &&& head is Ok
            &&& spec_next_in_list(s.1, head->Ok_0, true).0 == Ok::<Option<GraphEdgeRecord>, NexoraGraphEdgeError>(Some(
                new_edge_record(f.next_edge_id, src, dst, label_id, weight_bits, srec.first_out_edge, drec.first_in_edge),
            ))
        }),
{
    let buf = label_buffer();
    let l = spec_label_id_for(pages, f, label);
    let lid = l.0->Ok_0;
    let s1 = l.1;
    let f1 = l.2;
    let count = f.label_pages_count;
    if spec_find_label_named(pages, f, label, 0, count as nat) == Ok::<Option<u32>, NexoraGraphLabelError>(None) {
        lemma_add_label_effects(pages, f, label, buf);
        lemma_edge_insert_ready_frame(pages, f, s1, f1, src, dst);
    }
    let n = spec_insert_edge(s1, f1, src, dst, lid, weight_bits);
    lemma_insert_edge_then_get(s1, f1, src, dst, lid, weight_bits);
    let s2 = n.1;
    let f2 = n.2;
    let id = f.next_edge_id;
    let loc = spec_locate_edge(s2, f2, id)->Ok_0;
    lemma_find_edge_found(s2, f2.first_edge_page, id, s2.len());
    lemma_packed_ptr_roundtrip(loc.0, loc.2 as u8);
    let s = spec_graph_insert_edge(pages, f, src, dst, label, weight_bits);
    assert(s.1 == s2 && s.2 == f2);
}

/// What inserting a node labelled `label` does.
pub open spec fn spec_graph_insert_node(pages: Seq<Seq<u8>>, f: NexoraFooter, label: Seq<u8>) -> Outcome<u64, NexoraGraphStoreError> {
    let l = spec_label_id_for(pages, f, label);
    match l.0 {
        Err(e) => (Err(e), l.1, l.2, l.3),
        Ok(label_id) => {
            let n = spec_insert_node(l.1, l.2, label_id, PackedPtr(NULL_PTR_VALUE));
            match n.0 {
                Err(e) => (Err(NexoraGraphStoreError::Node(e)), n.1, n.2, l.3 || n.3),
                Ok(id) => (Ok(id), n.1, n.2, l.3 || n.3),
            }
        },
    }
}

/// What inserting an edge labelled `label` does.
pub open spec fn spec_graph_insert_edge(
    pages: Seq<Seq<u8>>,
    f: NexoraFooter,
    src: u64,
    dst: u64,
    label: Seq<u8>,
    weight_bits: u64,
) -> Outcome<u64, NexoraGraphStoreError> {
    let l = spec_label_id_for(pages, f, label);
    match l.0 {
        Err(e) => (Err(e), l.1, l.2, l.3),
        Ok(label_id) => {
            let n = spec_insert_edge(l.1, l.2, src, dst, label_id, weight_bits);
            match n.0 {
                Err(e) => (Err(NexoraGraphStoreError::Edge(e)), n.1, n.2, l.3 || n.3),
                Ok(id) => (Ok(id), n.1, n.2, l.3 || n.3),
            }
        },
    }
}

/// The bytes of the label of node `node_id`.
pub open spec fn spec_node_label_bytes(pages: Seq<Seq<u8>>, f: NexoraFooter, node_id: u64) -> Result<Seq<u8>, NexoraGraphStoreError> {
    match spec_get_node(pages, f, node_id) {
        Err(e) => Err(NexoraGraphStoreError::Node(e)),
        Ok(rec) => {
            let g = spec_get_label(pages, f, rec.label_id, label_buffer());
            match g.0 {
                Err(e) => Err(NexoraGraphStoreError::Label(e)),
                Ok(n) => Ok(g.1.subrange(0, n as int)),
            }
        },
    }
}

/// Whether reading the label of node `node_id` stays clear of page `q`:
/// the node lookup, the node page, the label lookup and the label text.
pub open spec fn node_label_read_avoids(pages: Seq<Seq<u8>>, f: NexoraFooter, node_id: u64, q: u64) -> bool {
    node_id < f.next_node_id ==> {
        &&& node_lookup_clear(pages, f, node_id, q)
        &&& spec_node_page_id(pages, f, node_id) != Ok::<PageId, NexoraGraphNodeError>(PageId(q))
        &&& spec_get_node(pages, f, node_id) matches Ok(rec) ==> {
            &&& label_walk_avoids(pages, f.first_label_page, rec.label_id, pages.len(), q)
            &&& spec_find_label_ptr(pages, f.first_label_page, rec.label_id, pages.len()) matches Ok(ptr)
                ==> string_chain_avoids(pages, ptr, STRING_CHAIN_FUEL as nat, q)
        }
    }
}

/// Closing a graph whose footer changed and opening its pages again reads
/// each node and its label as before, where that read stays clear of the
/// footer page.
pub proof fn lemma_close_then_reopen_get_node(pages: Seq<Seq<u8>>, header: NexoraHeader, f: NexoraFooter, node_id: u64)
    requires
        spec_read_header(pages) == Ok::<NexoraHeader, NexoraStorageError>(header),
        spec_read_footer(pages, header) is Ok,
        header.footer_page_id != 0,
        node_label_read_avoids(pages, f, node_id, header.footer_page_id),
    ensures
        ({
            let p2 = pages_after_write(pages, header.footer_page_id as int, stamped(footer_page_bytes(f)));
            &&& spec_read_header(p2) == Ok::<NexoraHeader, NexoraStorageError>(header)
            &&& spec_read_footer(p2, header) is Ok
            &&& spec_node_label_bytes(p2, spec_read_footer(p2, header)->Ok_0, node_id) == spec_node_label_bytes(pages, f, node_id)
        }),
{
    let q = header.footer_page_id;
    let d = stamped(footer_page_bytes(f));
    let p2 = pages_after_write(pages, q as int, d);
    lemma_close_then_reopen(pages, header, f);
    let f2 = spec_read_footer(p2, header)->Ok_0;
    assert(footer_contents(f2) == footer_contents(f));
    assert(f2.next_node_id == f.next_node_id && f2.first_page_index_page == f.first_page_index_page
        && f2.first_label_page == f.first_label_page);
    assert(p2.len() == pages.len());
    if node_id < f.next_node_id {
        lemma_get_node_write_frame(pages, f, node_id, q, d);
        assert(spec_get_node(p2, f2, node_id) == spec_get_node(p2, f, node_id));
        if let Ok(rec) = spec_get_node(pages, f, node_id) {
            lemma_find_label_write_frame(pages, q, d, f.first_label_page, rec.label_id, pages.len());
            if let Ok(ptr) = spec_find_label_ptr(pages, f.first_label_page, rec.label_id, pages.len()) {
                lemma_string_get_write_frame(pages, q, d, ptr, label_buffer(), 0, 0, STRING_CHAIN_FUEL as nat);
            }
            assert(spec_get_label(p2, f2, rec.label_id, label_buffer()) == spec_get_label(pages, f, rec.label_id, label_buffer()));
        }
    }
}

/// A new file, with its two pages and the initial footer, is in order for
/// every law that reads back what is added: strings, labels, nodes.
pub proof fn lemma_new_file_in_order(pages: Seq<Seq<u8>>)
    requires
        pages.len() == 2,
        forall|i: int| 0 <= i < pages.len() ==> #[trigger] pages[i].len() == PAGE_SIZE,
    ensures
        string_store_ok(pages, NexoraFooter::spec_initial()),
        label_store_ok(pages, NexoraFooter::spec_initial()),
        labels_stored(pages, NexoraFooter::spec_initial()),
        labels_in_order(pages, NexoraFooter::spec_initial()),
        node_insert_ready(pages, NexoraFooter::spec_initial()),
        node_store_ok(pages, NexoraFooter::spec_initial()),
        node_pages_apart(pages, NexoraFooter::spec_initial()),
{
    let f = NexoraFooter::spec_initial();
    lemma_no_free_pages_string_store_ok(pages, f);
    assert(spec_dir_page_id(pages, f.first_page_index_page, 0) is Err);
}

pub struct GraphStore {
    pub storage: StorageManager,
}

impl GraphStore {
    pub fn new(storage: StorageManager) -> (r: Self)
        ensures
            r.storage == storage,
    {
        GraphStore { storage }
    }

    /// The id of the label named `name`: the first existing label with that
    /// name, or a new one.
    pub fn label_id_for(&mut self, name: &[u8]) -> (r: Result<u32, NexoraGraphStoreError>)
        requires
            old(self).storage.inv(),
            name@.len() <= MAX_STRING_LENGTH ==> old(self).storage.can_allocate(chunk_count(name@.len() as int) + 1),
        ensures
            name@.len() > MAX_STRING_LENGTH ==> r is Err,
            final(self).storage.inv(),
            final(self).storage.header == old(self).storage.header,
            ({
                let s = spec_label_id_for(old(self).storage.store@, old(self).storage.footer, name@);
                &&& r == s.0
                &&& final(self).storage.store@ == s.1
                &&& final(self).storage.footer == s.2
                &&& final(self).storage.is_footer_dirty() == (old(self).storage.is_footer_dirty() || s.3)
            }),
            forall|n: int| 0 <= n && #[trigger] old(self).storage.can_allocate(n + chunk_count(name@.len() as int) + 1)
                ==> final(self).storage.can_allocate(n),
            same_graph_counters(old(self).storage.footer, final(self).storage.footer),
    {
        let mut labels = LabelStore::new(&mut self.storage);
        match labels.insert_label(name) {
            Ok(id) => Ok(id),
            Err(e) => Err(NexoraGraphStoreError::Label(e)),
        }
    }

    /// Adds a node labelled `label`; returns its id.
    pub fn insert_node(&mut self, label: &str) -> (r: Result<u64, NexoraGraphStoreError>)
        requires
            old(self).storage.inv(),
            label.spec_bytes().len() <= MAX_STRING_LENGTH
                ==> old(self).storage.can_allocate(chunk_count(label.spec_bytes().len() as int) + 3),
            old(self).storage.footer.next_node_id < u64::MAX,
            old(self).storage.footer.node_count < u64::MAX,
        ensures
            final(self).storage.inv(),
            final(self).storage.header == old(self).storage.header,
            ({
                let s = spec_graph_insert_node(old(self).storage.store@, old(self).storage.footer, label.spec_bytes());
                &&& r == s.0
                &&& final(self).storage.store@ == s.1
                &&& final(self).storage.footer == s.2
                &&& final(self).storage.is_footer_dirty() == (old(self).storage.is_footer_dirty() || s.3)
            }),
    {
        let bytes = label.as_bytes();
        let label_id = self.label_id_for(bytes)?;
        assert(self.storage.can_allocate(2)) by {
            assert(old(self).storage.can_allocate(2 + chunk_count(label.spec_bytes().len() as int) + 1));
        }
        let mut nodes = GraphNodeStore::new(&mut self.storage);
        match nodes.insert_node(label_id, PackedPtr::null()) {
            Ok(id) => Ok(id),
            Err(e) => Err(NexoraGraphStoreError::Node(e)),
        }
    }

    /// Adds an edge from `src` to `dst` labelled `label`, with the weight
    /// given by its IEEE-754 bits; returns its id.
    pub fn insert_edge(&mut self, src: u64, dst: u64, label: &str, weight_bits: u64) -> (r: Result<u64, NexoraGraphStoreError>)
        requires
            old(self).storage.inv(),
            label.spec_bytes().len() <= MAX_STRING_LENGTH
                ==> old(self).storage.can_allocate(chunk_count(label.spec_bytes().len() as int) + 2),
            old(self).storage.footer.next_edge_id < u64::MAX,
            old(self).storage.footer.edge_count < u64::MAX,
        ensures
            final(self).storage.inv(),
            final(self).storage.header == old(self).storage.header,
            ({
                let s = spec_graph_insert_edge(old(self).storage.store@, old(self).storage.footer, src, dst, label.spec_bytes(), weight_bits);
                &&& r == s.0
                &&& final(self).storage.store@ == s.1
                &&& final(self).storage.footer == s.2
                &&& final(self).storage.is_footer_dirty() == (old(self).storage.is_footer_dirty() || s.3)
            }),
    {
        let bytes = label.as_bytes();
        let label_id = self.label_id_for(bytes)?;
        assert(self.storage.can_allocate(1)) by {
            assert(old(self).storage.can_allocate(1 + chunk_count(label.spec_bytes().len() as int) + 1));
        }
        let mut edges = GraphEdgeStore::new(&mut self.storage);
        match edges.insert_edge(src, dst, label_id, weight_bits) {
            Ok(id) => Ok(id),
            Err(e) => Err(NexoraGraphStoreError::Edge(e)),
        }
    }

    /// Node `node_id` with the text of its label.
    pub fn get_node(&mut self, node_id: u64) -> (r: Result<Node, NexoraGraphStoreError>)
        requires
            old(self).storage.inv(),
        ensures
            final(self).storage == old(self).storage,
            match spec_node_label_bytes(old(self).storage.store@, old(self).storage.footer, node_id) {
                Err(e) => r matches Err(x) && x == e,
                Ok(b) => if valid_utf8(b) {
                    r matches Ok(n) && n.id == node_id && n.label@ == decode_utf8(b)
                } else {
                    r matches Err(x) && x == NexoraGraphStoreError::InvalidLabelText
                },
            },
    {
        let record = {
            let mut nodes = GraphNodeStore::new(&mut self.storage);
            match nodes.get_node(node_id) {
                Ok(rec) => rec,
                Err(e) => return Err(NexoraGraphStoreError::Node(e)),
            }
        };
        let mut buf: Vec<u8> = vec![0u8; MAX_STRING_LENGTH];
        assert(buf@ =~= label_buffer());
        let n = {
            let mut labels = LabelStore::new(&mut self.storage);
            match labels.get_label(record.label_id, buf.as_mut_slice()) {
                Ok(n) => n,
                Err(e) => return Err(NexoraGraphStoreError::Label(e)),
            }
        };
        let text = vstd::slice::slice_subrange(buf.as_slice(), 0, n as usize);
        match utf8_text(text) {
            Some(s) => Ok(Node { id: node_id, label: s.to_owned() }),
            None => Err(NexoraGraphStoreError::InvalidLabelText),
        }
    }

    /// The text of label `label_id`.
    pub fn label_text(&mut self, label_id: u32) -> (r: Result<String, NexoraGraphStoreError>)
        requires
            old(self).storage.inv(),
        ensures
            final(self).storage == old(self).storage,
            ({
                let g = spec_get_label(old(self).storage.store@, old(self).storage.footer, label_id, label_buffer());
                match g.0 {
                    Err(e) => r matches Err(x) && x == NexoraGraphStoreError::Label(e),
                    Ok(n) => if valid_utf8(g.1.subrange(0, n as int)) {
                        r matches Ok(t) && t@ == decode_utf8(g.1.subrange(0, n as int))
                    } else {
                        r matches Err(x) && x == NexoraGraphStoreError::InvalidLabelText
                    },
                }
            }),
    {
        let mut buf: Vec<u8> = vec![0u8; MAX_STRING_LENGTH];
        assert(buf@ =~= label_buffer());
        let n = {
            let mut labels = LabelStore::new(&mut self.storage);
            match labels.get_label(label_id, buf.as_mut_slice()) {
                Ok(n) => n,
                Err(e) => return Err(NexoraGraphStoreError::Label(e)),
            }
        };
        let text = vstd::slice::slice_subrange(buf.as_slice(), 0, n as usize);
        match utf8_text(text) {
            Some(s) => Ok(s.to_owned()),
            None => Err(NexoraGraphStoreError::InvalidLabelText),
        }
    }

    /// Node `node_id` when its label is `label`; `None` when its label is
    /// another text.
    pub fn node_with_label(&mut self, node_id: u64, label: &str) -> (r: Result<Option<Node>, NexoraGraphStoreError>)
        requires
            old(self).storage.inv(),
        ensures
            final(self).storage == old(self).storage,
            match spec_node_label_bytes(old(self).storage.store@, old(self).storage.footer, node_id) {
                Err(e) => r matches Err(x) && x == e,
                Ok(b) => if !valid_utf8(b) {
                    r matches Err(x) && x == NexoraGraphStoreError::InvalidLabelText
                } else if b == label.spec_bytes() {
                    r matches Ok(Some(n)) && n.id == node_id && n.label@ == decode_utf8(b)
                } else {
                    r matches Ok(None)
                },
            },
    {
        let record = {
            let mut nodes = GraphNodeStore::new(&mut self.storage);
            match nodes.get_node(node_id) {
                Ok(rec) => rec,
                Err(e) => return Err(NexoraGraphStoreError::Node(e)),
            }
        };
        let mut buf: Vec<u8> = vec![0u8; MAX_STRING_LENGTH];
        assert(buf@ =~= label_buffer());
        let n = {
            let mut labels = LabelStore::new(&mut self.storage);
            match labels.get_label(record.label_id, buf.as_mut_slice()) {
                Ok(n) => n,
                Err(e) => return Err(NexoraGraphStoreError::Label(e)),
            }
        };
        let text = vstd::slice::slice_subrange(buf.as_slice(), 0, n as usize);
        match utf8_text(text) {
            Some(s) => if bytes_equal(text, label.as_bytes()) {
                Ok(Some(Node { id: node_id, label: s.to_owned() }))
            } else {
                Ok(None)
            },
            None => Err(NexoraGraphStoreError::InvalidLabelText),
        }
    }

    /// A cursor at the head of the outgoing edges of node `node_id`.
    pub fn outgoing_cursor(&mut self, node_id: u64) -> (r: Result<RecordCursor, NexoraGraphStoreError>)
        requires
            old(self).storage.inv(),
        ensures
            final(self).storage == old(self).storage,
            match node_list_head(old(self).storage.store@, old(self).storage.footer, node_id, true) {
                Err(e) => r == Err::<RecordCursor, NexoraGraphStoreError>(NexoraGraphStoreError::Edge(e)),
                Ok(p) => r == Ok::<RecordCursor, NexoraGraphStoreError>(RecordCursor { next_ptr: p }),
            },
    {
        let mut edges = GraphEdgeStore::new(&mut self.storage);
        match edges.outgoing_cursor(node_id) {
            Ok(c) => Ok(c),
            Err(e) => Err(NexoraGraphStoreError::Edge(e)),
        }
    }

    /// A cursor at the head of the incoming edges of node `node_id`.
    pub fn incoming_cursor(&mut self, node_id: u64) -> (r: Result<RecordCursor, NexoraGraphStoreError>)
        requires
            old(self).storage.inv(),
        ensures
            final(self).storage == old(self).storage,
            match node_list_head(old(self).storage.store@, old(self).storage.footer, node_id, false) {
                Err(e) => r == Err::<RecordCursor, NexoraGraphStoreError>(NexoraGraphStoreError::Edge(e)),
                Ok(p) => r == Ok::<RecordCursor, NexoraGraphStoreError>(RecordCursor { next_ptr: p }),
            },
    {
        let mut edges = GraphEdgeStore::new(&mut self.storage);
        match edges.incoming_cursor(node_id) {
            Ok(c) => Ok(c),
            Err(e) => Err(NexoraGraphStoreError::Edge(e)),
        }
    }

    /// The edge at the cursor of an outgoing list; the cursor moves on.
    pub fn next_outgoing(&mut self, cursor: &mut RecordCursor) -> (r: Result<Option<GraphEdgeRecord>, NexoraGraphStoreError>)
        requires
            old(self).storage.inv(),
        ensures
            final(self).storage == old(self).storage,
            ({
                let s = spec_next_in_list(old(self).storage.store@, old(cursor).next_ptr, true);
                &&& final(cursor).next_ptr == s.1
                &&& match s.0 {
                    Err(e) => r == Err::<Option<GraphEdgeRecord>, NexoraGraphStoreError>(NexoraGraphStoreError::Edge(e)),
                    Ok(x) => r == Ok::<Option<GraphEdgeRecord>, NexoraGraphStoreError>(x),
                }
            }),
    {
        let edges = GraphEdgeStore::new(&mut self.storage);
        match edges.cursor_next_outgoing(cursor) {
            Ok(x) => Ok(x),
            Err(e) => Err(NexoraGraphStoreError::Edge(e)),
        }
    }

    /// The edge at the cursor of an incoming list; the cursor moves on.
    pub fn next_incoming(&mut self, cursor: &mut RecordCursor) -> (r: Result<Option<GraphEdgeRecord>, NexoraGraphStoreError>)
        requires
            old(self).storage.inv(),
        ensures
            final(self).storage == old(self).storage,
            ({
                let s = spec_next_in_list(old(self).storage.store@, old(cursor).next_ptr, false);
                &&& final(cursor).next_ptr == s.1
                &&& match s.0 {
                    Err(e) => r == Err::<Option<GraphEdgeRecord>, NexoraGraphStoreError>(NexoraGraphStoreError::Edge(e)),
                    Ok(x) => r == Ok::<Option<GraphEdgeRecord>, NexoraGraphStoreError>(x),
                }
            }),
    {
        let edges = GraphEdgeStore::new(&mut self.storage);
        match edges.cursor_next_incoming(cursor) {
            Ok(x) => Ok(x),
            Err(e) => Err(NexoraGraphStoreError::Edge(e)),
        }
    }
    /// A cursor at the start of a scan of all nodes.
    pub fn all_nodes_cursor(&mut self) -> (r: RecordCursor)
        ensures
            final(self).storage == old(self).storage,
            r.next_ptr == spec_node_scan_start(old(self).storage.footer),
    {
        let nodes = GraphNodeStore::new(&mut self.storage);
        match nodes.scan_cursor() {
            Ok(c) => c,
            Err(_) => RecordCursor::new(PackedPtr::null()),
        }
    }

    /// The next live node record of a scan; the cursor moves past it.
    pub fn next_node(&mut self, cursor: &mut RecordCursor) -> (r: Result<Option<GraphNodeRecord>, NexoraGraphStoreError>)
        requires
            old(self).storage.inv(),
        ensures
            final(self).storage == old(self).storage,
            ({
                let s = spec_next_node(old(self).storage.store@, old(cursor).next_ptr, old(self).storage.store@.len());
                &&& final(cursor).next_ptr == s.1
                &&& match s.0 {
                    Err(e) => r == Err::<Option<GraphNodeRecord>, NexoraGraphStoreError>(NexoraGraphStoreError::Node(e)),
                    Ok(x) => r == Ok::<Option<GraphNodeRecord>, NexoraGraphStoreError>(x),
                }
            }),
    {
        let nodes = GraphNodeStore::new(&mut self.storage);
        match nodes.cursor_next_node(cursor) {
            Ok(x) => Ok(x),
            Err(e) => Err(NexoraGraphStoreError::Node(e)),
        }
    }

    /// A cursor at the start of a scan of all edges.
    pub fn all_edges_cursor(&mut self) -> (r: RecordCursor)
        ensures
            final(self).storage == old(self).storage,
            r.next_ptr == spec_edge_scan_start(old(self).storage.footer),
    {
        let edges = GraphEdgeStore::new(&mut self.storage);
        match edges.scan_cursor() {
            Ok(c) => c,
            Err(_) => RecordCursor::new(PackedPtr::null()),
        }
    }

    /// The next live edge record of a scan; the cursor moves past it.
    pub fn next_edge(&mut self, cursor: &mut RecordCursor) -> (r: Result<Option<GraphEdgeRecord>, NexoraGraphStoreError>)
        requires
            old(self).storage.inv(),
        ensures
            final(self).storage == old(self).storage,
            ({
                let s = spec_next_edge(old(self).storage.store@, old(cursor).next_ptr, old(self).storage.store@.len());
                &&& final(cursor).next_ptr == s.1
                &&& match s.0 {
                    Err(e) => r == Err::<Option<GraphEdgeRecord>, NexoraGraphStoreError>(NexoraGraphStoreError::Edge(e)),
                    Ok(x) => r == Ok::<Option<GraphEdgeRecord>, NexoraGraphStoreError>(x),
                }
            }),
    {
        let edges = GraphEdgeStore::new(&mut self.storage);
        match edges.cursor_next_edge(cursor) {
            Ok(x) => Ok(x),
            Err(e) => Err(NexoraGraphStoreError::Edge(e)),
        }
    }

    /// Writes the footer back when it changed.
    pub fn close(&mut self) -> (r: Result<(), NexoraGraphStoreError>)
        requires
            old(self).storage.inv(),
        ensures
            r is Ok,
            final(self).storage.inv(),
            final(self).storage.header == old(self).storage.header,
            final(self).storage.footer == old(self).storage.footer,
            !final(self).storage.is_footer_dirty(),
            final(self).storage.store@ == if old(self).storage.is_footer_dirty() {
                pages_after_write(
                    old(self).storage.store@,
                    old(self).storage.header.footer_page_id as int,
                    stamped(footer_page_bytes(old(self).storage.footer)),
                )
            } else {
                old(self).storage.store@
            },
    {
        match self.storage.close() {
            Ok(()) => Ok(()),
            Err(e) => Err(NexoraGraphStoreError::Storage(e)),
        }
    }
}

} // verus!
