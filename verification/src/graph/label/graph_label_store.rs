//! Labels: ids handed out in order, each naming a string in the string store.
use vstd::prelude::*;

use crate::storage::constants::{PAGE_SIZE, SENTINEL_PAGE_ID};
use crate::storage::error::NexoraStorageError;
use crate::storage::models::{
    NexoraFooter, NexoraPageHeader, PageId, PageType, lemma_put_page_header, page_type_code, put_page_header, view_page_header,
};
use crate::storage::page_store::{
    chain_ends, checksum_ok, lemma_chain_ends_more, lemma_chain_no_return, lemma_chain_same_links, lemma_chain_same_pages,
    lemma_chain_step, lemma_on_chain_in_store, lemma_on_chain_within, lemma_stamped_checksum_ok,
    next_in_chain, on_chain,
    pages_after_write, spec_read_page, stamped, zero_bytes,
};
use crate::storage::storage_manager::{StorageManager, spec_allocate, same_graph_counters};
use crate::utils::codec::{group_codec, put_bytes, put_u16, put_u32, put_u64, read_u16, read_u32};
use crate::graph::label::page::{
    GraphLabelPage, LabelPageHeader, label_record_offset, lemma_label_insert_then_get, spec_get_entry, spec_insert_entry,
    spec_label_exists, spec_label_page_init, view_label_header,
};
use crate::graph::label::constants::MAX_PAGE_LABEL_COUNT;
use crate::graph::label::error::NexoraGraphLabelError;
use crate::graph::string::graph_string_store::{
    StringStore, spec_string_insert, spec_string_get, chain_holds, chunk_count, chunk_store_ok, lemma_chain_frame, lemma_chain_get,
    lemma_chain_holds_mono_in_store, lemma_string_insert_chain, lemma_string_insert_holds, string_page_keeps, within_closed,
    STRING_CHAIN_FUEL,
};
use crate::graph::string::error::NexoraGraphStringError;
use crate::graph::string::constants::MAX_STRING_LENGTH;
use crate::graph::record::types::PackedPtr;
use crate::graph::node::graph_node_store::Outcome;

verus! {

broadcast use group_codec;

/// Where label `label_id` names its string: the first label page of the
/// chain from `pid` that holds the id.
pub open spec fn spec_find_label_ptr(pages: Seq<Seq<u8>>, pid: u64, label_id: u32, fuel: nat) -> Result<PackedPtr, NexoraGraphLabelError>
    decreases fuel,
{
    if pid == SENTINEL_PAGE_ID {
        Err(NexoraGraphLabelError::LabelNotFound)
    } else if fuel == 0 {
        Err(NexoraGraphLabelError::Storage(NexoraStorageError::CorruptPage(pid)))
    } else {
        match spec_read_page(pages, pid, true) {
            Err(e) => Err(NexoraGraphLabelError::Storage(e)),
            Ok(s) => if spec_label_exists(view_label_header(s), label_id) {
                spec_get_entry(s, label_id)
            } else {
                spec_find_label_ptr(pages, view_page_header(s).next_page_id, label_id, (fuel - 1) as nat)
            },
        }
    }
}

/// Whether looking up `label_id` along the label chain from `pid`, for at
/// most `fuel` pages, stays clear of page `q`.
pub open spec fn label_walk_avoids(pages: Seq<Seq<u8>>, pid: u64, label_id: u32, fuel: nat, q: u64) -> bool
    decreases fuel,
{
    pid == SENTINEL_PAGE_ID || fuel == 0 || (pid != q && match spec_read_page(pages, pid, true) {
        Err(_) => true,
        Ok(s) => spec_label_exists(view_label_header(s), label_id)
            || label_walk_avoids(pages, view_page_header(s).next_page_id, label_id, (fuel - 1) as nat, q),
    })
}

/// Writing a page of the store that a label lookup stays clear of keeps
/// what the lookup gives.
pub proof fn lemma_find_label_write_frame(pages: Seq<Seq<u8>>, q: u64, d: Seq<u8>, pid: u64, label_id: u32, fuel: nat)
    requires
        q < pages.len(),
        label_walk_avoids(pages, pid, label_id, fuel, q),
    ensures
        spec_find_label_ptr(pages_after_write(pages, q as int, d), pid, label_id, fuel)
            == spec_find_label_ptr(pages, pid, label_id, fuel),
    decreases fuel,
{
    let p2 = pages_after_write(pages, q as int, d);
    if pid != SENTINEL_PAGE_ID && fuel > 0 {
        assert(spec_read_page(p2, pid, true) == spec_read_page(pages, pid, true));
        if let Ok(s) = spec_read_page(pages, pid, true) {
            if !spec_label_exists(view_label_header(s), label_id) {
                lemma_find_label_write_frame(pages, q, d, view_page_header(s).next_page_id, label_id, (fuel - 1) as nat);
            }
        }
    }
}

/// What adding the entry of `label_id` in a new label page does.
pub open spec fn spec_label_insert_into_new_page(pages: Seq<Seq<u8>>, f: NexoraFooter, label_id: u32, ptr: PackedPtr) -> Outcome<(), NexoraGraphLabelError> {
    let (a, f1) = spec_allocate(pages, f);
    match a {
        Err(e) => (Err(NexoraGraphLabelError::Storage(e)), pages, f1, false),
        Ok(np) => {
            let p0 = put_u64(spec_label_page_init(np.0, label_id), 8, f1.first_label_page);
            match spec_insert_entry(p0, label_id, ptr) {
                Err(e) => (Err(e), pages, f1, true),
                Ok(s) => (Ok(()), pages_after_write(pages, np.0 as int, stamped(s)), NexoraFooter { first_label_page: np.0, ..f1 }, true),
            }
        },
    }
}

/// What adding the entry of `label_id` does: the first page of the chain from
/// `pid` that is not full takes it, or a new page when all are.
pub open spec fn spec_label_insert_into_page(pages: Seq<Seq<u8>>, f: NexoraFooter, label_id: u32, ptr: PackedPtr, pid: u64, fuel: nat) -> Outcome<(), NexoraGraphLabelError>
    decreases fuel,
{
    if pid == SENTINEL_PAGE_ID {
        spec_label_insert_into_new_page(pages, f, label_id, ptr)
    } else if fuel == 0 {
        (Err(NexoraGraphLabelError::Storage(NexoraStorageError::CorruptPage(pid))), pages, f, false)
    } else {
        match spec_read_page(pages, pid, true) {
            Err(e) => (Err(NexoraGraphLabelError::Storage(e)), pages, f, false),
            Ok(s) => if view_label_header(s).label_count < MAX_PAGE_LABEL_COUNT {
                match spec_insert_entry(s, label_id, ptr) {
                    Err(e) => (Err(e), pages, f, false),
                    Ok(s2) => (Ok(()), pages_after_write(pages, pid as int, stamped(s2)), f, false),
                }
            } else {
                spec_label_insert_into_page(pages, f, label_id, ptr, view_page_header(s).next_page_id, (fuel - 1) as nat)
            },
        }
    }
}

/// What adding a new label does: its name is stored and it gets the next
/// label id.
pub open spec fn spec_add_label(pages: Seq<Seq<u8>>, f: NexoraFooter, data: Seq<u8>) -> Outcome<u32, NexoraGraphLabelError> {
    let st = spec_string_insert(pages, f, data);
    match st.0 {
        Err(e) => (Err(NexoraGraphLabelError::StringError(e)), st.1, st.2, st.3),
        Ok(ptr) => {
            let label_id = st.2.label_pages_count as u32;
            let ins = spec_label_insert_into_page(st.1, st.2, label_id, ptr, st.2.first_label_page, st.1.len());
            match ins.0 {
                Err(e) => (Err(e), ins.1, ins.2, st.3 || ins.3),
                Ok(_) => (Ok(label_id), ins.1, NexoraFooter { label_pages_count: (label_id as u64 + 1) as u64, ..ins.2 }, true),
            }
        },
    }
}

/// What reading label `label_id` into `out` gives.
pub open spec fn spec_get_label(pages: Seq<Seq<u8>>, f: NexoraFooter, label_id: u32, out: Seq<u8>) -> (Result<u16, NexoraGraphLabelError>, Seq<u8>) {
    match spec_find_label_ptr(pages, f.first_label_page, label_id, pages.len()) {
        Err(e) => (Err(e), out),
        Ok(ptr) => {
            let g = spec_string_get(pages, ptr, out, 0, 0, STRING_CHAIN_FUEL as nat);
            match g.0 {
                Err(e) => (Err(NexoraGraphLabelError::StringError(e)), g.1),
                Ok(n) => (Ok(n), g.1),
            }
        },
    }
}

/// The buffer a label is read into: room for the longest string.
pub open spec fn label_buffer() -> Seq<u8> {
    Seq::new(MAX_STRING_LENGTH as nat, |i: int| 0u8)
}

/// Looking through labels `i`, `i + 1`, .. below `count` for the first one
/// named `name`: its id, none, or the error that stops the search.
pub open spec fn spec_find_label_named(
    pages: Seq<Seq<u8>>,
    f: NexoraFooter,
    name: Seq<u8>,
    i: nat,
    count: nat,
) -> Result<Option<u32>, NexoraGraphLabelError>
    decreases count - i,
{
    if i >= count {
        Ok(None)
    } else {
        let g = spec_get_label(pages, f, i as u32, label_buffer());
        match g.0 {
            Err(e) => Err(e),
            Ok(n) => if g.1.subrange(0, n as int) == name {
                Ok(Some(i as u32))
            } else {
                spec_find_label_named(pages, f, name, i + 1, count)
            },
        }
    }
}

/// What inserting a label named `name` does: the id of the first label
/// with that name, with nothing changed, or a new label when none has it.
pub open spec fn spec_insert_label(pages: Seq<Seq<u8>>, f: NexoraFooter, name: Seq<u8>) -> Outcome<u32, NexoraGraphLabelError> {
    match spec_find_label_named(pages, f, name, 0, f.label_pages_count as nat) {
        Err(e) => (Err(e), pages, f, false),
        Ok(Some(id)) => (Ok(id), pages, f, false),
        Ok(None) => spec_add_label(pages, f, name),
    }
}

/// Whether every label below the label count is found and names a string
/// stored in the string area of the store.
pub open spec fn labels_stored(pages: Seq<Seq<u8>>, f: NexoraFooter) -> bool {
    forall|j: u32| j < f.label_pages_count ==> {
        let p = #[trigger] spec_find_label_ptr(pages, f.first_label_page, j, pages.len());
        &&& p is Ok
        &&& exists|name: Seq<u8>| name.len() <= MAX_STRING_LENGTH
            && chain_holds(pages, p->Ok_0, name, 0, string_area(pages, f.first_string_page))
    }
}

/// Whether the label chain from `pid` is in order for the next label id
/// `next_id`: it ends within `fuel` pages, every page holds ids below
/// `next_id`, and a page that is not full holds the ids up to `next_id`.
pub open spec fn label_chain_ok(pages: Seq<Seq<u8>>, pid: u64, fuel: nat, next_id: int) -> bool
    decreases fuel,
{
    pid == SENTINEL_PAGE_ID || (fuel > 0 && pid < pages.len() && {
        let h = view_label_header(pages[pid as int]);
        &&& h.first_label_id + h.label_count <= next_id
        &&& (h.label_count < MAX_PAGE_LABEL_COUNT ==> h.first_label_id + h.label_count == next_id)
        &&& label_chain_ok(pages, next_in_chain(pages, pid), (fuel - 1) as nat, next_id)
    })
}

/// A label chain in order ends.
proof fn lemma_label_chain_ends(pages: Seq<Seq<u8>>, pid: u64, fuel: nat, next_id: int)
    requires
        label_chain_ok(pages, pid, fuel, next_id),
    ensures
        chain_ends(pages, pid, fuel),
    decreases fuel,
{
    if pid != SENTINEL_PAGE_ID {
        lemma_label_chain_ends(pages, next_in_chain(pages, pid), (fuel - 1) as nat, next_id);
    }
}

/// A label chain stays in order when its pages do not change.
proof fn lemma_label_chain_frame(pages: Seq<Seq<u8>>, p2: Seq<Seq<u8>>, pid: u64, fuel: nat, next_id: int)
    requires
        label_chain_ok(pages, pid, fuel, next_id),
        pages.len() <= p2.len(),
        forall|q: u64| #[trigger] on_chain(pages, pid, q, fuel) ==> p2[q as int] == pages[q as int],
    ensures
        label_chain_ok(p2, pid, fuel, next_id),
    decreases fuel,
{
    if pid != SENTINEL_PAGE_ID {
        assert(on_chain(pages, pid, pid, fuel));
        let y = next_in_chain(pages, pid);
        assert forall|q: u64| #[trigger] on_chain(pages, y, q, (fuel - 1) as nat) implies p2[q as int] == pages[q as int] by {
            assert(on_chain(pages, pid, q, fuel));
        }
        lemma_label_chain_frame(pages, p2, y, (fuel - 1) as nat, next_id);
    }
}

/// Stamping a label page keeps its header and its entries.
proof fn lemma_label_page_stamped(s: Seq<u8>, label_id: u32)
    requires
        s.len() == PAGE_SIZE,
    ensures
        checksum_ok(stamped(s)),
        stamped(s).len() == PAGE_SIZE,
        view_label_header(stamped(s)) == view_label_header(s),
        spec_get_entry(stamped(s), label_id) == spec_get_entry(s, label_id),
{
    lemma_stamped_checksum_ok(s);
    let t = stamped(s);
    assert(t.subrange(32, 36) =~= s.subrange(32, 36));
    assert(t.subrange(36, 38) =~= s.subrange(36, 38));
    let h = view_label_header(s);
    if spec_label_exists(h, label_id) && label_id - h.first_label_id < MAX_PAGE_LABEL_COUNT {
        let o = label_record_offset(label_id - h.first_label_id) + 8;
        assert(t.subrange(o, o + 8) =~= s.subrange(o, o + 8));
    }
}

/// A new label page for first id `label_id` starts with no entries.
proof fn lemma_new_label_page(np: u64, label_id: u32, next: u64)
    ensures
        put_u64(spec_label_page_init(np, label_id), 8, next).len() == PAGE_SIZE,
        view_label_header(put_u64(spec_label_page_init(np, label_id), 8, next))
            == (LabelPageHeader { first_label_id: label_id, label_count: 0 }),
{
    let z = zero_bytes();
    let hdr = NexoraPageHeader {
        page_id: np,
        next_page_id: SENTINEL_PAGE_ID,
        prev_page_id: SENTINEL_PAGE_ID,
        checksum: 0,
        page_type: page_type_code(PageType::Label),
    };
    lemma_put_page_header(z, hdr);
    let h = put_u16(put_u32(put_page_header(z, hdr), 32, label_id), 36, 0);
    let i = spec_label_page_init(np, label_id);
    let t = put_u64(i, 8, next);
    assert(forall|j: int| 32 <= j < 38 ==> #[trigger] i[j] == h[j]);
    assert(t.subrange(32, 36) =~= h.subrange(32, 36));
    assert(t.subrange(36, 38) =~= h.subrange(36, 38));
    assert(read_u32(h, 32) == label_id);
    assert(read_u16(h, 36) == 0);
}

/// Whether label page `t` is page `s` with the entry of id `n` added: both
/// check, the next page is the same, the count grows by one from `n` with
/// the same first id, and
/// every id below `n` is held and found as before.
pub open spec fn label_page_extends(s: Seq<u8>, t: Seq<u8>, n: u32) -> bool {
    &&& checksum_ok(s)
    &&& checksum_ok(t)
    &&& t.len() == PAGE_SIZE
    &&& view_page_header(t).next_page_id == view_page_header(s).next_page_id
    &&& view_label_header(s).first_label_id + view_label_header(s).label_count == n
    &&& view_label_header(t).first_label_id == view_label_header(s).first_label_id
    &&& view_label_header(t).label_count == view_label_header(s).label_count + 1
    &&& forall|j: u32| j < n ==> spec_label_exists(view_label_header(t), j) == #[trigger] spec_label_exists(view_label_header(s), j)
    &&& forall|j: u32| j < n ==> #[trigger] spec_get_entry(t, j) == spec_get_entry(s, j)
}

/// Adding an entry to a label page that is not full, and stamping it,
/// extends the page.
proof fn lemma_insert_entry_extends(s: Seq<u8>, label_id: u32, ptr: PackedPtr)
    requires
        s.len() == PAGE_SIZE,
        checksum_ok(s),
        view_label_header(s).label_count < MAX_PAGE_LABEL_COUNT,
        view_label_header(s).first_label_id + view_label_header(s).label_count == label_id,
    ensures
        label_page_extends(s, stamped(spec_insert_entry(s, label_id, ptr)->Ok_0), label_id),
{
    let s2 = spec_insert_entry(s, label_id, ptr)->Ok_0;
    let t = stamped(s2);
    lemma_stamped_checksum_ok(s2);
    assert(t.subrange(8, 16) =~= s.subrange(8, 16));
    let h = view_label_header(s);
    assert forall|j: u32| j < label_id implies #[trigger] spec_get_entry(t, j) == spec_get_entry(s, j) by {
        lemma_label_page_stamped(s2, j);
        if spec_label_exists(h, j) {
            let o = label_record_offset(j - h.first_label_id) + 8;
            assert(s2.subrange(o, o + 8) =~= s.subrange(o, o + 8));
        }
    }
    lemma_label_page_stamped(s2, 0);
}

/// A label page is found at the same place however much fuel the lookup has
/// beyond the length of a chain in order.
proof fn lemma_find_label_fuel(pages: Seq<Seq<u8>>, pid: u64, label_id: u32, k: nat, fuel: nat, n: int)
    requires
        label_chain_ok(pages, pid, k, n),
        fuel >= k,
    ensures
        spec_find_label_ptr(pages, pid, label_id, fuel) == spec_find_label_ptr(pages, pid, label_id, k),
    decreases k,
{
    if pid != SENTINEL_PAGE_ID {
        lemma_find_label_fuel(pages, next_in_chain(pages, pid), label_id, (k - 1) as nat, (fuel - 1) as nat, n);
    }
}

/// Looking up an id below `n` along a chain in order for `n` gives the same
/// in a store where each page of the chain is unchanged or extended by `n`.
proof fn lemma_find_label_frame(pages: Seq<Seq<u8>>, p2: Seq<Seq<u8>>, pid: u64, label_id: u32, k: nat, fuel: nat, n: u32)
    requires
        label_chain_ok(pages, pid, k, n as int),
        fuel >= k,
        label_id < n,
        pages.len() <= p2.len(),
        forall|q: u64| #[trigger] on_chain(pages, pid, q, k)
            ==> p2[q as int] == pages[q as int] || label_page_extends(pages[q as int], p2[q as int], n),
    ensures
        spec_find_label_ptr(p2, pid, label_id, fuel) == spec_find_label_ptr(pages, pid, label_id, fuel),
    decreases k,
{
    if pid != SENTINEL_PAGE_ID {
        assert(on_chain(pages, pid, pid, k));
        let y = next_in_chain(pages, pid);
        assert forall|q: u64| #[trigger] on_chain(pages, y, q, (k - 1) as nat)
            implies p2[q as int] == pages[q as int] || label_page_extends(pages[q as int], p2[q as int], n) by {
            assert(on_chain(pages, pid, q, k));
        }
        lemma_find_label_frame(pages, p2, y, label_id, (k - 1) as nat, (fuel - 1) as nat, n);
        if p2[pid as int] != pages[pid as int] {
            let s = pages[pid as int];
            let t = p2[pid as int];
            assert(spec_label_exists(view_label_header(t), label_id) == spec_label_exists(view_label_header(s), label_id));
            assert(spec_get_entry(t, label_id) == spec_get_entry(s, label_id));
        }
    }
}

/// Adding the entry of `label_id` along the label chain from `pid` lets the
/// chain find it again, and writes no page that `within` allows: a page of
/// the chain that is not full, or a new page at the front.
proof fn lemma_label_insert_walk(
    pages: Seq<Seq<u8>>,
    f: NexoraFooter,
    label_id: u32,
    ptr: PackedPtr,
    pid: u64,
    fuel: nat,
    k: nat,
    fuel2: nat,
    within: spec_fn(u64) -> bool,
)
    requires
        forall|i: int| 0 <= i < pages.len() ==> #[trigger] pages[i].len() == PAGE_SIZE,
        f.first_free_page == SENTINEL_PAGE_ID,
        pages.len() <= f.page_count,
        f.page_count < u64::MAX,
        label_chain_ok(pages, pid, k, label_id as int),
        forall|q: u64| #[trigger] on_chain(pages, pid, q, k) ==> !within(q),
        fuel2 >= fuel,
        spec_label_insert_into_page(pages, f, label_id, ptr, pid, fuel).0 is Ok,
    ensures
        ({
            let ins = spec_label_insert_into_page(pages, f, label_id, ptr, pid, fuel);
            &&& ins.1.len() >= pages.len()
            &&& ins.1.len() <= ins.2.page_count
            &&& forall|i: int| 0 <= i < ins.1.len() ==> #[trigger] ins.1[i].len() == PAGE_SIZE
            &&& forall|q: u64| q < pages.len() && #[trigger] within(q) ==> ins.1[q as int] == pages[q as int]
            &&& forall|q: u64| q < pages.len() && ins.1[q as int] != pages[q as int] ==> #[trigger] on_chain(pages, pid, q, k)
            &&& if ins.3 {
                let np = ins.2.first_label_page;
                &&& spec_find_label_ptr(ins.1, np, label_id, ins.1.len()) == Ok::<PackedPtr, NexoraGraphLabelError>(ptr)
                &&& np == f.page_count
                &&& pages.len() <= np < ins.1.len()
                &&& checksum_ok(ins.1[np as int])
                &&& view_label_header(ins.1[np as int]) == (LabelPageHeader { first_label_id: label_id, label_count: 1 })
                &&& next_in_chain(ins.1, np) == f.first_label_page
                &&& forall|q: u64| q < pages.len() ==> ins.1[q as int] == pages[q as int]
                &&& ins.2 == (NexoraFooter { first_label_page: np, page_count: (f.page_count + 1) as u64, ..f })
            } else {
                &&& ins.2 == f
                &&& ins.1.len() == pages.len()
                &&& spec_find_label_ptr(ins.1, pid, label_id, fuel2) == Ok::<PackedPtr, NexoraGraphLabelError>(ptr)
                &&& forall|q: u64| q < pages.len() && ins.1[q as int] != pages[q as int]
                    ==> #[trigger] view_label_header(pages[q as int]).label_count < MAX_PAGE_LABEL_COUNT
                        && label_page_extends(pages[q as int], ins.1[q as int], label_id)
            }
        }),
    decreases fuel,
{
    let ins = spec_label_insert_into_page(pages, f, label_id, ptr, pid, fuel);
    if pid == SENTINEL_PAGE_ID {
        let (a, f1) = spec_allocate(pages, f);
        let np = a->Ok_0;
        let p0 = put_u64(spec_label_page_init(np.0, label_id), 8, f1.first_label_page);
        lemma_new_label_page(np.0, label_id, f1.first_label_page);
        let s2 = spec_insert_entry(p0, label_id, ptr)->Ok_0;
        lemma_label_insert_then_get(p0, label_id, ptr);
        lemma_label_page_stamped(s2, label_id);
        let p1 = pages_after_write(pages, np.0 as int, stamped(s2));
        assert(ins.1 == p1);
        assert(p1[np.0 as int] == stamped(s2));
        assert(view_label_header(s2).label_count == 1);
        assert(spec_find_label_ptr(p1, np.0, label_id, p1.len()) == Ok::<PackedPtr, NexoraGraphLabelError>(ptr));
        assert forall|q: u64| q < pages.len() && #[trigger] within(q) implies p1[q as int] == pages[q as int] by {}
        assert(stamped(s2).subrange(8, 16) =~= p0.subrange(8, 16));
        assert(s2.subrange(8, 16) =~= p0.subrange(8, 16));
    } else if fuel > 0 {
        let s = pages[pid as int];
        assert(on_chain(pages, pid, pid, k));
        if spec_read_page(pages, pid, true) is Ok && view_label_header(s).label_count < MAX_PAGE_LABEL_COUNT {
            let s2 = spec_insert_entry(s, label_id, ptr)->Ok_0;
            lemma_label_insert_then_get(s, label_id, ptr);
            lemma_label_page_stamped(s2, label_id);
            let p1 = pages_after_write(pages, pid as int, stamped(s2));
            assert(ins.1 == p1);
            assert(p1[pid as int] == stamped(s2));
            assert(view_label_header(s2).label_count == view_label_header(s).label_count + 1);
            assert(spec_find_label_ptr(p1, pid, label_id, fuel2) == Ok::<PackedPtr, NexoraGraphLabelError>(ptr));
            assert forall|q: u64| q < pages.len() && #[trigger] within(q) implies p1[q as int] == pages[q as int] by {}
            lemma_insert_entry_extends(s, label_id, ptr);
        } else {
            let y = view_page_header(s).next_page_id;
            assert forall|q: u64| #[trigger] on_chain(pages, y, q, (k - 1) as nat) implies !within(q) by {
                assert(on_chain(pages, pid, q, k));
            }
            lemma_label_insert_walk(pages, f, label_id, ptr, y, (fuel - 1) as nat, (k - 1) as nat, (fuel2 - 1) as nat, within);
            if !ins.3 {
                assert(ins.1[pid as int] == pages[pid as int]);
            }
            assert forall|q: u64| q < pages.len() && ins.1[q as int] != pages[q as int] implies #[trigger] on_chain(pages, pid, q, k) by {
                assert(on_chain(pages, y, q, (k - 1) as nat));
            }
        }
    }
}

/// A lookup that finds a label finds it the same with more fuel.
pub proof fn lemma_find_label_ok_fuel(pages: Seq<Seq<u8>>, pid: u64, label_id: u32, fuel: nat, fuel2: nat)
    requires
        spec_find_label_ptr(pages, pid, label_id, fuel) is Ok,
        fuel2 >= fuel,
    ensures
        spec_find_label_ptr(pages, pid, label_id, fuel2) == spec_find_label_ptr(pages, pid, label_id, fuel),
    decreases fuel,
{
    if pid != SENTINEL_PAGE_ID && fuel > 0 && pid < pages.len() && !spec_label_exists(view_label_header(pages[pid as int]), label_id) {
        lemma_find_label_ok_fuel(pages, next_in_chain(pages, pid), label_id, (fuel - 1) as nat, (fuel2 - 1) as nat);
    }
}

/// A lookup that finds a label finds it the same in a store that keeps the
/// pages of the chain it walks.
pub proof fn lemma_find_label_ok_frame(pages: Seq<Seq<u8>>, p2: Seq<Seq<u8>>, pid: u64, label_id: u32, fuel: nat)
    requires
        spec_find_label_ptr(pages, pid, label_id, fuel) is Ok,
        pages.len() <= p2.len(),
        forall|q: u64| #[trigger] on_chain(pages, pid, q, fuel) ==> p2[q as int] == pages[q as int],
    ensures
        spec_find_label_ptr(p2, pid, label_id, fuel) == spec_find_label_ptr(pages, pid, label_id, fuel),
    decreases fuel,
{
    if pid != SENTINEL_PAGE_ID && fuel > 0 && pid < pages.len() {
        assert(on_chain(pages, pid, pid, fuel));
        let y = next_in_chain(pages, pid);
        assert forall|q: u64| #[trigger] on_chain(pages, y, q, (fuel - 1) as nat) implies p2[q as int] == pages[q as int] by {
            assert(on_chain(pages, pid, q, fuel));
        }
        if !spec_label_exists(view_label_header(pages[pid as int]), label_id) {
            lemma_find_label_ok_frame(pages, p2, y, label_id, (fuel - 1) as nat);
        }
    }
}

/// The pages the strings of a store live on: its string chain, and pages
/// past its last page.
pub open spec fn string_area(pages: Seq<Seq<u8>>, first_string_page: u64) -> spec_fn(u64) -> bool {
    |q: u64| q >= pages.len() || on_chain(pages, first_string_page, q, pages.len())
}

/// Whether a store is in order for adding labels: pages of full size, no
/// free pages, as many pages as its page count,
/// a string chain and a label chain that end and share no page, a label chain
/// in order for the label count (each page holds ids below it, a page that
/// is not full the ids up to it), and a label count below the largest `u32`.
pub open spec fn label_store_ok(pages: Seq<Seq<u8>>, f: NexoraFooter) -> bool {
    &&& forall|i: int| 0 <= i < pages.len() ==> #[trigger] pages[i].len() == PAGE_SIZE
    &&& f.first_free_page == SENTINEL_PAGE_ID
    &&& pages.len() == f.page_count
    &&& f.label_pages_count < u32::MAX
    &&& chain_ends(pages, f.first_string_page, pages.len())
    &&& label_chain_ok(pages, f.first_label_page, pages.len(), f.label_pages_count as int)
    &&& forall|q: u64| #[trigger] on_chain(pages, f.first_label_page, q, pages.len())
        ==> !on_chain(pages, f.first_string_page, q, pages.len())
}

/// What adding a new label does, on a store in order: the new label reads
/// back its name, every earlier label is found where it was, and every
/// string stored in the string area is still stored there.
pub proof fn lemma_add_label_effects(pages: Seq<Seq<u8>>, f: NexoraFooter, data: Seq<u8>, out: Seq<u8>)
    requires
        label_store_ok(pages, f),
        f.page_count + chunk_count(data.len() as int) + 1 < 0xff_ffff_ffff_ffff,
        data.len() <= out.len(),
        spec_add_label(pages, f, data).0 is Ok,
    ensures
        ({
            let s = spec_add_label(pages, f, data);
            let w = string_area(pages, f.first_string_page);
            &&& s.0 == Ok::<u32, NexoraGraphLabelError>(f.label_pages_count as u32)
            &&& s.2.label_pages_count == f.label_pages_count + 1
            &&& spec_get_label(s.1, s.2, s.0->Ok_0, out) == (Ok::<u16, NexoraGraphLabelError>(data.len() as u16), put_bytes(out, 0, data))
            &&& forall|j: u32| j < f.label_pages_count ==> #[trigger] spec_find_label_ptr(s.1, s.2.first_label_page, j, s.1.len())
                == spec_find_label_ptr(pages, f.first_label_page, j, pages.len())
            &&& forall|ptr: PackedPtr, name: Seq<u8>| #[trigger] chain_holds(pages, ptr, name, 0, w) ==> chain_holds(s.1, ptr, name, 0, w)
            &&& spec_find_label_ptr(s.1, s.2.first_label_page, f.label_pages_count as u32, s.1.len()) is Ok
            &&& chain_holds(s.1, spec_find_label_ptr(s.1, s.2.first_label_page, f.label_pages_count as u32, s.1.len())->Ok_0, data, 0, w)
            &&& forall|i: int| 0 <= i < s.1.len() ==> #[trigger] s.1[i].len() == PAGE_SIZE
            &&& s.1.len() >= pages.len()
            &&& s.1.len() <= s.2.page_count
            &&& s.2.page_count <= f.page_count + chunk_count(data.len() as int) + 1
            &&& s.2 == (NexoraFooter {
                label_pages_count: s.2.label_pages_count,
                first_label_page: s.2.first_label_page,
                page_count: s.2.page_count,
                first_string_page: s.2.first_string_page,
                ..f
            })
            &&& forall|q: u64| q < pages.len() && s.1[q as int] != pages[q as int]
                ==> on_chain(pages, f.first_string_page, q, pages.len() as nat) || #[trigger] on_chain(pages, f.first_label_page, q, pages.len() as nat)
            &&& forall|q: u64| #[trigger] on_chain(s.1, s.2.first_label_page, q, s.1.len())
                ==> (pages.len() <= q < s.1.len()) || on_chain(pages, f.first_label_page, q, pages.len() as nat)
        }),
{
    let kk = pages.len() as nat;
    let fs = f.first_string_page;
    let fl = f.first_label_page;
    let n = f.label_pages_count as u32;
    let w = string_area(pages, fs);
    assert forall|x: u64| x < pages.len() && x != SENTINEL_PAGE_ID && #[trigger] w(x)
        implies next_in_chain(pages, x) == SENTINEL_PAGE_ID || w(next_in_chain(pages, x)) by {
        lemma_chain_step(pages, fs, x, kk);
    }
    assert(within_closed(pages, w));
    if fs != SENTINEL_PAGE_ID {
        assert(on_chain(pages, fs, fs, kk));
    }
    assert(chunk_store_ok(pages, f, w));
    lemma_string_insert_holds(pages, f, data, w);
    let st = spec_string_insert(pages, f, data);
    let ptr = st.0->Ok_0;
    lemma_label_chain_ends(pages, fl, kk, f.label_pages_count as int);
    assert forall|q: u64| #[trigger] on_chain(pages, fl, q, kk) implies q < pages.len() && st.1[q as int] == pages[q as int] by {
        lemma_on_chain_in_store(pages, fl, q, kk);
        assert(!on_chain(pages, fs, q, kk));
        assert(!w(q));
    }
    lemma_chain_same_pages(pages, st.1, fl, kk);
    lemma_label_chain_frame(pages, st.1, fl, kk, f.label_pages_count as int);
    assert forall|q: u64| #[trigger] on_chain(st.1, fl, q, kk) implies !w(q) by {
        assert(on_chain(pages, fl, q, kk));
    }
    let ins = spec_label_insert_into_page(st.1, st.2, n, ptr, fl, st.1.len());
    lemma_label_insert_walk(st.1, st.2, n, ptr, fl, st.1.len(), kk, st.1.len(), w);
    lemma_label_insert_walk(st.1, st.2, n, ptr, fl, st.1.len(), kk, ins.1.len(), w);
    lemma_chain_frame(st.1, ins.1, ptr, data, 0, w);
    lemma_chain_get(ins.1, ptr, data, 0, w, out, 0, STRING_CHAIN_FUEL as nat);
    assert(data.subrange(0, data.len() as int) =~= data);
    let s = spec_add_label(pages, f, data);
    assert forall|j: u32| j < f.label_pages_count implies #[trigger] spec_find_label_ptr(s.1, s.2.first_label_page, j, s.1.len())
        == spec_find_label_ptr(pages, fl, j, pages.len()) by {
        assert forall|q: u64| #[trigger] on_chain(pages, fl, q, kk) implies st.1[q as int] == pages[q as int]
            || label_page_extends(pages[q as int], st.1[q as int], n) by {}
        lemma_find_label_frame(pages, st.1, fl, j, kk, kk, n);
        lemma_find_label_fuel(st.1, fl, j, kk, ins.1.len(), f.label_pages_count as int);
        if ins.3 {
            let np = ins.2.first_label_page;
            lemma_find_label_fuel(st.1, fl, j, kk, (ins.1.len() - 1) as nat, f.label_pages_count as int);
            assert forall|q: u64| #[trigger] on_chain(st.1, fl, q, kk) implies ins.1[q as int] == st.1[q as int]
                || label_page_extends(st.1[q as int], ins.1[q as int], n) by {
                lemma_on_chain_in_store(st.1, fl, q, kk);
            }
            lemma_find_label_frame(st.1, ins.1, fl, j, kk, (ins.1.len() - 1) as nat, n);
            assert(!spec_label_exists(view_label_header(ins.1[np as int]), j));
        } else {
            assert forall|q: u64| #[trigger] on_chain(st.1, fl, q, kk) implies ins.1[q as int] == st.1[q as int]
                || label_page_extends(st.1[q as int], ins.1[q as int], n) by {
                lemma_on_chain_in_store(st.1, fl, q, kk);
            }
            lemma_find_label_frame(st.1, ins.1, fl, j, kk, ins.1.len(), n);
        }
    }
    assert forall|p: PackedPtr, name: Seq<u8>| #[trigger] chain_holds(pages, p, name, 0, w) implies chain_holds(s.1, p, name, 0, w) by {
        lemma_chain_frame(pages, st.1, p, name, 0, w);
        lemma_chain_frame(st.1, ins.1, p, name, 0, w);
    }
    assert forall|q: u64| q < pages.len() && s.1[q as int] != pages[q as int]
        implies on_chain(pages, fs, q, kk) || #[trigger] on_chain(pages, fl, q, kk) by {
        if st.1[q as int] != pages[q as int] {
            assert(w(q));
        } else {
            assert(on_chain(st.1, fl, q, kk));
        }
    }
    assert forall|q: u64| #[trigger] on_chain(pages, fl, q, kk) implies q < ins.1.len() && next_in_chain(ins.1, q) == next_in_chain(pages, q) by {
        lemma_on_chain_in_store(pages, fl, q, kk);
        assert(st.1[q as int] == pages[q as int]);
        if ins.1[q as int] != st.1[q as int] {
            assert(label_page_extends(st.1[q as int], ins.1[q as int], n));
        }
    }
    lemma_chain_same_links(pages, ins.1, fl, kk);
    assert forall|q: u64| #[trigger] on_chain(s.1, s.2.first_label_page, q, s.1.len())
        implies (pages.len() <= q < s.1.len()) || on_chain(pages, fl, q, kk) by {
        if ins.3 {
            let np = ins.2.first_label_page;
            if q != np {
                lemma_on_chain_within(ins.1, fl, q, kk, (ins.1.len() - 1) as nat);
            }
        } else {
            lemma_on_chain_within(ins.1, fl, q, kk, ins.1.len());
        }
    }
}

/// Whether every page of the label chain after its first is full: a label
/// goes into the first page, and a new first page comes in front of a full
/// one.
pub open spec fn label_pages_full_but_first(pages: Seq<Seq<u8>>, f: NexoraFooter) -> bool {
    f.first_label_page != SENTINEL_PAGE_ID ==> forall|q: u64|
        #[trigger] on_chain(pages, next_in_chain(pages, f.first_label_page), q, (pages.len() - 1) as nat)
        ==> view_label_header(pages[q as int]).label_count >= MAX_PAGE_LABEL_COUNT
}

/// Whether the labels of a store are in order: in order for adding labels
/// (see `label_store_ok`), each naming a stored string (see
/// `labels_stored`), on label pages that are full but for the first.
pub open spec fn labels_in_order(pages: Seq<Seq<u8>>, f: NexoraFooter) -> bool {
    &&& label_store_ok(pages, f)
    &&& labels_stored(pages, f)
    &&& label_pages_full_but_first(pages, f)
}

/// A chain of full label pages that is kept in a second store is in order
/// there for the next label id too.
proof fn lemma_label_chain_full_bump(pages: Seq<Seq<u8>>, p2: Seq<Seq<u8>>, x: u64, k: nat, k2: nat, n: int)
    requires
        label_chain_ok(pages, x, k, n),
        k <= k2,
        pages.len() <= p2.len(),
        forall|q: u64| #[trigger] on_chain(pages, x, q, k) ==> p2[q as int] == pages[q as int]
            && view_label_header(pages[q as int]).label_count >= MAX_PAGE_LABEL_COUNT,
    ensures
        label_chain_ok(p2, x, k2, n + 1),
    decreases k,
{
    if x != SENTINEL_PAGE_ID {
        assert(on_chain(pages, x, x, k));
        let y = next_in_chain(pages, x);
        assert forall|q: u64| #[trigger] on_chain(pages, y, q, (k - 1) as nat) implies p2[q as int] == pages[q as int]
            && view_label_header(pages[q as int]).label_count >= MAX_PAGE_LABEL_COUNT by {
            assert(on_chain(pages, x, q, k));
        }
        lemma_label_chain_full_bump(pages, p2, y, (k - 1) as nat, (k2 - 1) as nat, n);
    }
}

/// Adding an entry to a chain of full label pages, when it succeeds, adds a
/// new page in front of the chain.
proof fn lemma_label_walk_all_full(pages: Seq<Seq<u8>>, f: NexoraFooter, label_id: u32, ptr: PackedPtr, pid: u64, fuel: nat, k: nat)
    requires
        chain_ends(pages, pid, k),
        k <= fuel,
        forall|q: u64| #[trigger] on_chain(pages, pid, q, k) ==> view_label_header(pages[q as int]).label_count >= MAX_PAGE_LABEL_COUNT,
        spec_label_insert_into_page(pages, f, label_id, ptr, pid, fuel).0 is Ok,
    ensures
        spec_label_insert_into_page(pages, f, label_id, ptr, pid, fuel) == spec_label_insert_into_new_page(pages, f, label_id, ptr),
    decreases k,
{
    if pid != SENTINEL_PAGE_ID {
        assert(on_chain(pages, pid, pid, k));
        let y = next_in_chain(pages, pid);
        assert forall|q: u64| #[trigger] on_chain(pages, y, q, (k - 1) as nat) implies
            view_label_header(pages[q as int]).label_count >= MAX_PAGE_LABEL_COUNT by {
            assert(on_chain(pages, pid, q, k));
        }
        lemma_label_walk_all_full(pages, f, label_id, ptr, y, (fuel - 1) as nat, (k - 1) as nat);
    }
}

/// Adding a label keeps the labels of a store in order, so that the label
/// laws hold again for the next one; label ids stay below the largest `u32`.
pub proof fn lemma_add_label_keeps_labels_in_order(pages: Seq<Seq<u8>>, f: NexoraFooter, data: Seq<u8>)
    requires
        labels_in_order(pages, f),
        f.label_pages_count + 1 < u32::MAX,
        f.page_count + chunk_count(data.len() as int) + 1 < 0xff_ffff_ffff_ffff,
        spec_add_label(pages, f, data).0 is Ok,
    ensures
        ({
            let s = spec_add_label(pages, f, data);
            labels_in_order(s.1, s.2)
        }),
{
    let kk = pages.len() as nat;
    let fs = f.first_string_page;
    let fl = f.first_label_page;
    let n = f.label_pages_count as u32;
    let w = string_area(pages, fs);
    let st = spec_string_insert(pages, f, data);
    assert(data.len() <= MAX_STRING_LENGTH);
    lemma_add_label_effects(pages, f, data, label_buffer());
    // the string insert
    assert forall|x: u64| x < pages.len() && x != SENTINEL_PAGE_ID && #[trigger] w(x)
        implies next_in_chain(pages, x) == SENTINEL_PAGE_ID || w(next_in_chain(pages, x)) by {
        lemma_chain_step(pages, fs, x, kk);
    }
    assert(within_closed(pages, w));
    if fs != SENTINEL_PAGE_ID {
        assert(on_chain(pages, fs, fs, kk));
    }
    assert(chunk_store_ok(pages, f, w));
    lemma_string_insert_holds(pages, f, data, w);
    lemma_string_insert_chain(pages, f, data);
    let ptr = st.0->Ok_0;
    let l1 = st.1.len() as nat;
    let fs1 = st.2.first_string_page;
    assert(st.2.first_label_page == fl && st.2.first_free_page == SENTINEL_PAGE_ID && st.2.label_pages_count == n);
    // the label chain is untouched by the string insert
    lemma_label_chain_ends(pages, fl, kk, n as int);
    assert forall|q: u64| #[trigger] on_chain(pages, fl, q, kk) implies q < pages.len() && st.1[q as int] == pages[q as int] by {
        lemma_on_chain_in_store(pages, fl, q, kk);
        assert(!on_chain(pages, fs, q, kk));
        assert(!w(q));
    }
    lemma_chain_same_pages(pages, st.1, fl, kk);
    lemma_label_chain_frame(pages, st.1, fl, kk, n as int);
    assert forall|q: u64| #[trigger] on_chain(st.1, fl, q, kk) implies !w(q) by {
        assert(on_chain(pages, fl, q, kk));
    }
    let ins = spec_label_insert_into_page(st.1, st.2, n, ptr, fl, l1);
    lemma_label_insert_walk(st.1, st.2, n, ptr, fl, l1, kk, l1, w);
    let s = spec_add_label(pages, f, data);
    assert(s.1 == ins.1);
    assert(s.2 == NexoraFooter { label_pages_count: (n as u64 + 1) as u64, ..ins.2 });
    let l2 = s.1.len() as nat;
    let fl2 = s.2.first_label_page;
    // the pages after the first label page are full, in both stores
    let y = if fl != SENTINEL_PAGE_ID { next_in_chain(pages, fl) } else { SENTINEL_PAGE_ID };
    if fl != SENTINEL_PAGE_ID {
        assert(on_chain(pages, fl, fl, kk));
        assert(chain_ends(pages, y, (kk - 1) as nat));
        assert forall|q: u64| #[trigger] on_chain(pages, y, q, (kk - 1) as nat) implies q < pages.len() && st.1[q as int] == pages[q as int] by {
            assert(on_chain(pages, fl, q, kk));
        }
        lemma_chain_same_pages(pages, st.1, y, (kk - 1) as nat);
        lemma_chain_no_return(pages, fl, kk, (kk - 1) as nat);
        assert(next_in_chain(st.1, fl) == y);
    }
    let first_full = fl == SENTINEL_PAGE_ID || view_label_header(st.1[fl as int]).label_count >= MAX_PAGE_LABEL_COUNT;
    if first_full {
        // every page of the chain is full: the label gets a new first page
        assert forall|q: u64| #[trigger] on_chain(st.1, fl, q, kk) implies
            view_label_header(st.1[q as int]).label_count >= MAX_PAGE_LABEL_COUNT by {
            if q != fl {
                assert(on_chain(st.1, y, q, (kk - 1) as nat));
                assert(on_chain(pages, y, q, (kk - 1) as nat));
            }
        }
        lemma_label_walk_all_full(st.1, st.2, n, ptr, fl, l1, kk);
        assert(ins.3);
    } else {
        // the label goes into the first page, which has room
        let s0 = st.1[fl as int];
        assert(on_chain(pages, fl, fl, kk));
        assert(view_label_header(s0).first_label_id + view_label_header(s0).label_count == n);
        assert(spec_read_page(st.1, fl, true) is Ok);
        let s2 = spec_insert_entry(s0, n, ptr)->Ok_0;
        lemma_insert_entry_extends(s0, n, ptr);
        assert(ins.1 == pages_after_write(st.1, fl as int, stamped(s2)));
        assert(!ins.3 && ins.2 == st.2);
    }
    // only the first label page changes among the pages of the store
    assert forall|q: u64| q < l1 && (q != fl || first_full) implies #[trigger] s.1[q as int] == st.1[q as int] by {}
    if first_full {
        assert(l2 == l1 + 1);
        assert(fl2 == l1);
    } else {
        assert(l2 == l1);
        assert(fl2 == fl);
    }
    assert(l2 == s.2.page_count);
    // the string chain of the new store
    if fl != SENTINEL_PAGE_ID {
        assert(!on_chain(st.1, fs1, fl, l1)) by {
            assert(on_chain(pages, fl, fl, kk));
            assert(!on_chain(pages, fs, fl, kk));
        }
    }
    assert forall|q: u64| #[trigger] on_chain(st.1, fs1, q, l1) implies q < st.1.len() && s.1[q as int] == st.1[q as int] by {
        lemma_on_chain_in_store(st.1, fs1, q, l1);
    }
    lemma_chain_same_pages(st.1, s.1, fs1, l1);
    lemma_chain_ends_more(s.1, fs1, l1, l2);
    assert forall|q: u64| #[trigger] on_chain(s.1, fs1, q, l2) implies on_chain(st.1, fs1, q, l1) by {
        lemma_on_chain_within(s.1, fs1, q, l1, l2);
    }
    // the label chain of the new store: the first page, then full pages
    assert(label_chain_ok(s.1, fl2, l2, n as int + 1)) by {
        if first_full {
            assert forall|q: u64| #[trigger] on_chain(st.1, fl, q, kk) implies s.1[q as int] == st.1[q as int]
                && view_label_header(st.1[q as int]).label_count >= MAX_PAGE_LABEL_COUNT by {
                lemma_on_chain_in_store(st.1, fl, q, kk);
                if q != fl {
                    assert(on_chain(st.1, y, q, (kk - 1) as nat));
                    assert(on_chain(pages, y, q, (kk - 1) as nat));
                }
            }
            lemma_label_chain_full_bump(st.1, s.1, fl, kk, (l2 - 1) as nat, n as int);
        } else {
            assert(label_chain_ok(st.1, y, (kk - 1) as nat, n as int));
            assert forall|q: u64| #[trigger] on_chain(st.1, y, q, (kk - 1) as nat) implies s.1[q as int] == st.1[q as int]
                && view_label_header(st.1[q as int]).label_count >= MAX_PAGE_LABEL_COUNT by {
                assert(on_chain(pages, y, q, (kk - 1) as nat));
                lemma_on_chain_in_store(pages, y, q, (kk - 1) as nat);
            }
            lemma_label_chain_full_bump(st.1, s.1, y, (kk - 1) as nat, (l2 - 1) as nat, n as int);
            assert(next_in_chain(s.1, fl) == y);
        }
    }
    // the label chain of the new store lies on the first page and the old chain
    let lc = |q: u64| (first_full && q == fl2) || on_chain(pages, fl, q, kk);
    assert forall|x: u64| #[trigger] on_chain(st.1, fl, x, kk) implies x < s.1.len()
        && next_in_chain(s.1, x) == next_in_chain(st.1, x) by {
        lemma_on_chain_in_store(st.1, fl, x, kk);
        if x == fl && !first_full {
            assert(s.1[fl as int].subrange(8, 16) =~= st.1[fl as int].subrange(8, 16));
        }
    }
    lemma_chain_same_links(st.1, s.1, fl, kk);
    assert forall|q: u64| #[trigger] on_chain(s.1, fl2, q, l2) implies lc(q) by {
        if first_full {
            if q != fl2 {
                assert(on_chain(s.1, fl, q, (l2 - 1) as nat));
                lemma_on_chain_within(s.1, fl, q, kk, (l2 - 1) as nat);
                assert(on_chain(st.1, fl, q, kk));
            }
        } else {
            lemma_on_chain_within(s.1, fl, q, kk, l2);
            assert(on_chain(st.1, fl, q, kk));
        }
    }
    assert(label_store_ok(s.1, s.2)) by {
        lemma_label_chain_ends(s.1, fl2, l2, n as int + 1);
        assert forall|q: u64| #[trigger] on_chain(s.1, fl2, q, l2) implies !on_chain(s.1, fs1, q, l2) by {
            assert(lc(q));
            if on_chain(s.1, fs1, q, l2) {
                assert(on_chain(st.1, fs1, q, l1));
                lemma_on_chain_in_store(st.1, fs1, q, l1);
                if !(first_full && q == fl2) {
                    assert(on_chain(pages, fl, q, kk));
                    lemma_on_chain_in_store(pages, fl, q, kk);
                    assert(q < kk);
                    assert(on_chain(pages, fs, q, kk));
                }
            }
        }
    }
    assert(label_pages_full_but_first(s.1, s.2)) by {
        let y2 = next_in_chain(s.1, fl2);
        if first_full {
            assert(y2 == fl);
            assert forall|q: u64| #[trigger] on_chain(s.1, y2, q, (l2 - 1) as nat) implies
                view_label_header(s.1[q as int]).label_count >= MAX_PAGE_LABEL_COUNT by {
                lemma_on_chain_within(s.1, fl, q, kk, (l2 - 1) as nat);
                assert(on_chain(st.1, fl, q, kk));
                lemma_on_chain_in_store(st.1, fl, q, kk);
                if q != fl {
                    assert(on_chain(st.1, y, q, (kk - 1) as nat));
                    assert(on_chain(pages, y, q, (kk - 1) as nat));
                }
            }
        } else {
            assert(y2 == y);
            assert(chain_ends(s.1, y, (kk - 1) as nat));
            assert forall|q: u64| #[trigger] on_chain(st.1, y, q, (kk - 1) as nat) implies q < st.1.len()
                && s.1[q as int] == st.1[q as int] by {
                assert(on_chain(pages, y, q, (kk - 1) as nat));
                lemma_on_chain_in_store(pages, y, q, (kk - 1) as nat);
            }
            lemma_chain_same_pages(st.1, s.1, y, (kk - 1) as nat);
            assert forall|q: u64| #[trigger] on_chain(s.1, y2, q, (l2 - 1) as nat) implies
                view_label_header(s.1[q as int]).label_count >= MAX_PAGE_LABEL_COUNT by {
                lemma_on_chain_within(s.1, y, q, (kk - 1) as nat, (l2 - 1) as nat);
                assert(on_chain(st.1, y, q, (kk - 1) as nat));
                assert(on_chain(pages, y, q, (kk - 1) as nat));
                lemma_on_chain_in_store(pages, y, q, (kk - 1) as nat);
            }
        }
    }
    // every label names a string stored on the string chain of the new store
    let w2 = string_area(s.1, fs1);
    let wl = |q: u64| q < l1 && w(q);
    assert forall|q: u64| #[trigger] wl(q) implies w2(q) by {
        if q >= kk {
            assert(on_chain(st.1, fs1, q, l1));
        } else {
            assert(on_chain(pages, fs, q, kk));
            assert(on_chain(st.1, fs1, q, l1));
        }
        assert(on_chain(s.1, fs1, q, l1));
        lemma_on_chain_within(s.1, fs1, q, l2, l1);
    }
    assert forall|q: u64| q < l1 && #[trigger] wl(q) implies s.1[q as int] == st.1[q as int] by {
        if q == fl && !first_full {
            assert(on_chain(pages, fl, fl, kk));
            assert(!on_chain(pages, fs, fl, kk));
        }
    }
    assert forall|q: u64| q < pages.len() && #[trigger] wl(q) implies st.1[q as int] == pages[q as int]
        || string_page_keeps(pages[q as int], st.1[q as int]) by {
        assert(w(q));
    }
    assert forall|q: u64| q < st.1.len() && #[trigger] w(q) implies wl(q) by {}
    assert forall|q: u64| q < pages.len() && #[trigger] w(q) implies wl(q) by {}
    assert forall|q: u64| q < s.1.len() && #[trigger] wl(q) implies w2(q) by {}
    assert forall|j: u32| j < s.2.label_pages_count implies {
        let p = #[trigger] spec_find_label_ptr(s.1, fl2, j, l2);
        &&& p is Ok
        &&& exists|name: Seq<u8>| name.len() <= MAX_STRING_LENGTH && chain_holds(s.1, p->Ok_0, name, 0, w2)
    } by {
        if j < n {
            let p = spec_find_label_ptr(pages, fl, j, kk);
            assert(spec_find_label_ptr(s.1, fl2, j, l2) == p);
            assert(p is Ok);
            let nm = choose|nm: Seq<u8>| nm.len() <= MAX_STRING_LENGTH && chain_holds(pages, p->Ok_0, nm, 0, w);
            lemma_chain_holds_mono_in_store(pages, p->Ok_0, nm, 0, w, wl);
            lemma_chain_frame(pages, st.1, p->Ok_0, nm, 0, wl);
            lemma_chain_frame(st.1, s.1, p->Ok_0, nm, 0, wl);
            lemma_chain_holds_mono_in_store(s.1, p->Ok_0, nm, 0, wl, w2);
        } else {
            assert(j == n);
            assert(spec_find_label_ptr(s.1, fl2, j, l2) == Ok::<PackedPtr, NexoraGraphLabelError>(ptr));
            lemma_chain_holds_mono_in_store(st.1, ptr, data, 0, w, wl);
            lemma_chain_frame(st.1, s.1, ptr, data, 0, wl);
            lemma_chain_holds_mono_in_store(s.1, ptr, data, 0, wl, w2);
        }
    }
    assert(labels_stored(s.1, s.2));
}

/// Inserting a label, found or added, keeps the labels of a store in order,
/// so that the label laws hold again for the next insert; label ids stay
/// below the largest `u32`.
pub proof fn lemma_insert_label_keeps_labels_in_order(pages: Seq<Seq<u8>>, f: NexoraFooter, name: Seq<u8>)
    requires
        labels_in_order(pages, f),
        f.label_pages_count + 1 < u32::MAX,
        f.page_count + chunk_count(name.len() as int) + 1 < 0xff_ffff_ffff_ffff,
        spec_insert_label(pages, f, name).0 is Ok,
    ensures
        ({
            let s = spec_insert_label(pages, f, name);
            labels_in_order(s.1, s.2)
        }),
{
    if spec_find_label_named(pages, f, name, 0, f.label_pages_count as nat) == Ok::<Option<u32>, NexoraGraphLabelError>(None) {
        lemma_add_label_keeps_labels_in_order(pages, f, name);
    }
}

/// Reading a label right after adding it gives its name back: the length
/// and the bytes at the start of the buffer. Stated for a store in order for
/// adding labels (see `label_store_ok`); page ids must stay below the null
/// pointer's.
pub proof fn lemma_add_label_then_get(pages: Seq<Seq<u8>>, f: NexoraFooter, data: Seq<u8>, out: Seq<u8>)
    requires
        label_store_ok(pages, f),
        f.page_count + chunk_count(data.len() as int) + 1 < 0xff_ffff_ffff_ffff,
        data.len() <= out.len(),
        spec_add_label(pages, f, data).0 is Ok,
    ensures
        ({
            let s = spec_add_label(pages, f, data);
            spec_get_label(s.1, s.2, s.0->Ok_0, out) == (Ok::<u16, NexoraGraphLabelError>(data.len() as u16), put_bytes(out, 0, data))
        }),
{
    lemma_add_label_effects(pages, f, data, out);
}

/// Looking for `name` again after it was added as label `count`, when no
/// label below `count` had it and those labels read as before, finds `count`.
proof fn lemma_find_named_after_insert(
    pages: Seq<Seq<u8>>,
    f: NexoraFooter,
    p2: Seq<Seq<u8>>,
    f2: NexoraFooter,
    name: Seq<u8>,
    i: nat,
    count: nat,
)
    requires
        i <= count < u32::MAX,
        spec_find_label_named(pages, f, name, i, count) == Ok::<Option<u32>, NexoraGraphLabelError>(None),
        forall|j: u32| i <= j < count ==> #[trigger] spec_get_label(p2, f2, j, label_buffer()) == spec_get_label(pages, f, j, label_buffer()),
        spec_get_label(p2, f2, count as u32, label_buffer())
            == (Ok::<u16, NexoraGraphLabelError>(name.len() as u16), put_bytes(label_buffer(), 0, name)),
        name.len() <= MAX_STRING_LENGTH,
    ensures
        spec_find_label_named(p2, f2, name, i, count + 1) == Ok::<Option<u32>, NexoraGraphLabelError>(Some(count as u32)),
    decreases count - i,
{
    if i < count {
        assert(spec_get_label(p2, f2, i as u32, label_buffer()) == spec_get_label(pages, f, i as u32, label_buffer()));
        lemma_find_named_after_insert(pages, f, p2, f2, name, i + 1, count);
    } else {
        assert(put_bytes(label_buffer(), 0, name).subrange(0, name.len() as int) =~= name);
    }
}

/// A label the search for `name` finds reads as `name`.
pub proof fn lemma_find_named_found(pages: Seq<Seq<u8>>, f: NexoraFooter, name: Seq<u8>, i: nat, count: nat)
    requires
        count <= u32::MAX,
    ensures
        spec_find_label_named(pages, f, name, i, count) matches Ok(Some(j)) ==> {
            let g = spec_get_label(pages, f, j, label_buffer());
            &&& i <= j < count
            &&& g.0 is Ok
            &&& g.1.subrange(0, g.0->Ok_0 as int) == name
        },
    decreases count - i,
{
    if i < count {
        lemma_find_named_found(pages, f, name, i + 1, count);
    }
}

/// Inserting the same label name twice gives the same id, and the second
/// insert changes nothing: each name is stored once. Stated for a store in
/// order for adding labels (see `label_store_ok`) whose labels all name
/// strings stored in its string area (see `labels_stored`); page ids must
/// stay below the null pointer's.
pub proof fn lemma_insert_label_twice(pages: Seq<Seq<u8>>, f: NexoraFooter, name: Seq<u8>)
    requires
        label_store_ok(pages, f),
        labels_stored(pages, f),
        f.page_count + chunk_count(name.len() as int) + 1 < 0xff_ffff_ffff_ffff,
        spec_insert_label(pages, f, name).0 is Ok,
    ensures
        ({
            let a = spec_insert_label(pages, f, name);
            let b = spec_insert_label(a.1, a.2, name);
            &&& b.0 == a.0
            &&& b.1 == a.1
            &&& b.2 == a.2
            &&& !b.3
        }),
{
    let count = f.label_pages_count;
    if spec_find_label_named(pages, f, name, 0, count as nat) == Ok::<Option<u32>, NexoraGraphLabelError>(None) {
        let l = spec_add_label(pages, f, name);
        lemma_add_label_effects(pages, f, name, label_buffer());
        let w = string_area(pages, f.first_string_page);
        assert forall|j: u32| 0 <= j < count implies #[trigger] spec_get_label(l.1, l.2, j, label_buffer())
            == spec_get_label(pages, f, j, label_buffer()) by {
            let p = spec_find_label_ptr(pages, f.first_label_page, j, pages.len());
            let nm = choose|nm: Seq<u8>| nm.len() <= MAX_STRING_LENGTH && chain_holds(pages, p->Ok_0, nm, 0, w);
            assert(chain_holds(l.1, p->Ok_0, nm, 0, w));
            lemma_chain_get(pages, p->Ok_0, nm, 0, w, label_buffer(), 0, STRING_CHAIN_FUEL as nat);
            lemma_chain_get(l.1, p->Ok_0, nm, 0, w, label_buffer(), 0, STRING_CHAIN_FUEL as nat);
        }
        lemma_find_named_after_insert(pages, f, l.1, l.2, name, 0, count as nat);
    }
}

/// Whether two byte strings are equal.
pub(crate) fn bytes_equal(a: &[u8], b: &[u8]) -> (r: bool)
    ensures
        r == (a@ == b@),
{
    if a.len() != b.len() {
        return false;
    }
    let mut i: usize = 0;
    while i < a.len()
        invariant
            i <= a@.len(),
            a@.len() == b@.len(),
            forall|j: int| 0 <= j < i ==> a@[j] == b@[j],
        decreases a@.len() - i,
    {
        if a[i] != b[i] {
            return false;
        }
        i = i + 1;
    }
    assert(a@ =~= b@);
    true
}

/// Reading a label right after inserting its name gives the name back,
/// whether the name was already there or was just added. Stated for a store
/// in order for adding labels (see `label_store_ok`); page ids must stay
/// below the null pointer's.
pub proof fn lemma_insert_label_then_get(pages: Seq<Seq<u8>>, f: NexoraFooter, name: Seq<u8>)
    requires
        label_store_ok(pages, f),
        f.page_count + chunk_count(name.len() as int) + 1 < 0xff_ffff_ffff_ffff,
        spec_insert_label(pages, f, name).0 is Ok,
    ensures
        ({
            let s = spec_insert_label(pages, f, name);
            let g = spec_get_label(s.1, s.2, s.0->Ok_0, label_buffer());
            &&& g.0 is Ok
            &&& g.1.subrange(0, g.0->Ok_0 as int) == name
        }),
{
    lemma_find_named_found(pages, f, name, 0, f.label_pages_count as nat);
    if spec_find_label_named(pages, f, name, 0, f.label_pages_count as nat) == Ok::<Option<u32>, NexoraGraphLabelError>(None) {
        assert(name.len() <= MAX_STRING_LENGTH);
        lemma_add_label_then_get(pages, f, name, label_buffer());
        assert(put_bytes(label_buffer(), 0, name).subrange(0, name.len() as int) =~= name);
    }
}

pub struct LabelStore<'a> {
    pub storage: &'a mut StorageManager,
}

impl<'a> LabelStore<'a> {
    /// The storage manager as it stands now.
    pub open spec fn sm(&self) -> StorageManager {
        *self.storage
    }

    pub fn new(storage: &'a mut StorageManager) -> (r: Self)
        ensures
            *r.storage == *old(storage),
            *final(r.storage) == *final(storage),
    {
        LabelStore { storage }
    }

    fn read_label_page(&self, page_id: PageId) -> (r: Result<GraphLabelPage, NexoraGraphLabelError>)
        requires
            self.sm().inv(),
        ensures
            match spec_read_page(self.sm().store@, page_id.0, true) {
                Err(e) => r == Err::<GraphLabelPage, NexoraGraphLabelError>(NexoraGraphLabelError::Storage(e)),
                Ok(s) => r is Ok && r->Ok_0@ == s && r->Ok_0.inv(),
            },
    {
        let mut buf: Vec<u8> = Vec::new();
        match self.storage.store.read_page(page_id, &mut buf, true) {
            Ok(()) => {},
            Err(e) => return Err(NexoraGraphLabelError::Storage(e)),
        }
        Ok(GraphLabelPage::from_bytes(buf))
    }

    /// The id of the label named `data`: the first existing label with that
    /// name, or a new label when none has it.
    pub fn insert_label(&mut self, data: &[u8]) -> (r: Result<u32, NexoraGraphLabelError>)
        requires
            old(self).sm().inv(),
            data@.len() <= MAX_STRING_LENGTH ==> old(self).sm().can_allocate(chunk_count(data@.len() as int) + 1),
        ensures
            data@.len() > MAX_STRING_LENGTH ==> r is Err,
            final(self).sm().inv(),
            *final(final(self).storage) == *final(old(self).storage),
            final(self).sm().header == old(self).sm().header,
            ({
                let s = spec_insert_label(old(self).sm().store@, old(self).sm().footer, data@);
                &&& r == s.0
                &&& final(self).sm().store@ == s.1
                &&& final(self).sm().footer == s.2
                &&& final(self).sm().is_footer_dirty() == (old(self).sm().is_footer_dirty() || s.3)
            }),
            forall|n: int| 0 <= n && #[trigger] old(self).sm().can_allocate(n + chunk_count(data@.len() as int) + 1)
                ==> final(self).sm().can_allocate(n),
            same_graph_counters(old(self).sm().footer, final(self).sm().footer),
    {
        let ghost pages = self.sm().store@;
        let ghost f = self.sm().footer;
        let count = self.storage.footer.label_pages_count;
        let mut i: u64 = 0;
        while i < count
            invariant
                self.sm() == old(self).sm(),
                *final(self.storage) == *final(old(self).storage),
                pages == self.sm().store@,
                f == self.sm().footer,
                self.sm().inv(),
                count == f.label_pages_count,
                i <= count,
                spec_find_label_named(pages, f, data@, 0, count as nat) == spec_find_label_named(pages, f, data@, i as nat, count as nat),
            decreases count - i,
        {
            let mut buf: Vec<u8> = vec![0u8; MAX_STRING_LENGTH];
            assert(buf@ =~= label_buffer());
            let n = self.get_label(i as u32, buf.as_mut_slice())?;
            let text = vstd::slice::slice_subrange(buf.as_slice(), 0, n as usize);
            if bytes_equal(text, data) {
                return Ok(i as u32);
            }
            i = i + 1;
        }
        self.add_label(data)
    }

    /// Stores the label's name and gives it the next label id.
    fn add_label(&mut self, data: &[u8]) -> (r: Result<u32, NexoraGraphLabelError>)
        requires
            old(self).sm().inv(),
            data@.len() <= MAX_STRING_LENGTH ==> old(self).sm().can_allocate(chunk_count(data@.len() as int) + 1),
        ensures
            final(self).sm().inv(),
            *final(final(self).storage) == *final(old(self).storage),
            final(self).sm().header == old(self).sm().header,
            ({
                let s = spec_add_label(old(self).sm().store@, old(self).sm().footer, data@);
                &&& r == s.0
                &&& final(self).sm().store@ == s.1
                &&& final(self).sm().footer == s.2
                &&& final(self).sm().is_footer_dirty() == (old(self).sm().is_footer_dirty() || s.3)
            }),
            forall|n: int| 0 <= n && #[trigger] old(self).sm().can_allocate(n + chunk_count(data@.len() as int) + 1)
                ==> final(self).sm().can_allocate(n),
            same_graph_counters(old(self).sm().footer, final(self).sm().footer),
    {
        let ghost st = spec_string_insert(self.sm().store@, self.sm().footer, data@);
        let ptr = {
            let mut string_store = StringStore::new(self.storage);
            match string_store.insert(data) {
                Ok(p) => p,
                Err(e) => {
                    proof {
                        assert forall|n: int| 0 <= n && #[trigger] old(self).sm().can_allocate(n + chunk_count(data@.len() as int) + 1)
                            implies self.sm().can_allocate(n) by {
                            assert(old(self).sm().can_allocate((n + 1) + chunk_count(data@.len() as int)));
                        }
                    }
                    return Err(NexoraGraphLabelError::StringError(e));
                },
            }
        };
        assert(self.sm().can_allocate(1)) by {
            assert(old(self).sm().can_allocate(1 + chunk_count(data@.len() as int)));
        }
        let label_id = self.storage.footer.label_pages_count as u32;
        let ghost mid = self.sm();
        assert forall|n: int| 0 <= n && #[trigger] old(self).sm().can_allocate(n + chunk_count(data@.len() as int) + 1)
            implies mid.can_allocate(n + 1) by {
            assert(old(self).sm().can_allocate((n + 1) + chunk_count(data@.len() as int)));
        }
        self.insert_into_page(label_id, ptr)?;
        self.storage.footer.label_pages_count = label_id as u64 + 1;
        self.storage.mark_footer_dirty();
        Ok(label_id)
    }

    /// Reads the name of label `label_id` into `out`; returns its length.
    pub fn get_label(&mut self, label_id: u32, out: &mut [u8]) -> (r: Result<u16, NexoraGraphLabelError>)
        requires
            old(self).sm().inv(),
        ensures
            final(self).sm() == old(self).sm(),
            *final(final(self).storage) == *final(old(self).storage),
            final(out)@.len() == old(out)@.len(),
            ({
                let s = spec_get_label(old(self).sm().store@, old(self).sm().footer, label_id, old(out)@);
                &&& r == s.0
                &&& final(out)@ == s.1
            }),
    {
        let ptr = self.find_label_ptr(label_id)?;
        let string_store = StringStore::new(self.storage);
        match string_store.get(ptr, out) {
            Ok(n) => Ok(n),
            Err(e) => Err(NexoraGraphLabelError::StringError(e)),
        }
    }

    fn find_label_ptr(&self, label_id: u32) -> (r: Result<PackedPtr, NexoraGraphLabelError>)
        requires
            self.sm().inv(),
        ensures
            r == spec_find_label_ptr(self.sm().store@, self.sm().footer.first_label_page, label_id, self.sm().store@.len()),
    {
        let ghost pages = self.sm().store@;
        let mut page_id_val = self.storage.footer.first_label_page;
        let mut fuel = self.storage.store.page_count();
        while page_id_val != SENTINEL_PAGE_ID
            invariant
                self.sm().inv(),
                pages == self.sm().store@,
                spec_find_label_ptr(pages, self.sm().footer.first_label_page, label_id, pages.len())
                    == spec_find_label_ptr(pages, page_id_val, label_id, fuel as nat),
            decreases fuel,
        {
            if fuel == 0 {
                return Err(NexoraGraphLabelError::Storage(NexoraStorageError::CorruptPage(page_id_val)));
            }
            let page = self.read_label_page(PageId(page_id_val))?;
            if page.label_page_header().exists_label(label_id) {
                return page.get_entry(label_id);
            }
            page_id_val = page.page_header().next_page_id;
            fuel = fuel - 1;
        }
        Err(NexoraGraphLabelError::LabelNotFound)
    }

    fn insert_into_page(&mut self, label_id: u32, ptr: PackedPtr) -> (r: Result<(), NexoraGraphLabelError>)
        requires
            old(self).sm().inv(),
            old(self).sm().can_allocate(1),
        ensures
            final(self).sm().inv(),
            *final(final(self).storage) == *final(old(self).storage),
            final(self).sm().header == old(self).sm().header,
            ({
                let s = spec_label_insert_into_page(old(self).sm().store@, old(self).sm().footer, label_id, ptr,
                    old(self).sm().footer.first_label_page, old(self).sm().store@.len());
                &&& r == s.0
                &&& final(self).sm().store@ == s.1
                &&& final(self).sm().footer == s.2
                &&& final(self).sm().is_footer_dirty() == (old(self).sm().is_footer_dirty() || s.3)
            }),
            forall|n: int| 1 <= n && #[trigger] old(self).sm().can_allocate(n) ==> final(self).sm().can_allocate(n - 1),
            same_graph_counters(old(self).sm().footer, final(self).sm().footer),
    {
        let ghost pages = self.sm().store@;
        let ghost f = self.sm().footer;
        let mut page_id_val = self.storage.footer.first_label_page;
        let mut fuel = self.storage.store.page_count();
        while page_id_val != SENTINEL_PAGE_ID
            invariant
                self.sm().inv(),
                self.sm() == *old(self).storage,
                *final(self.storage) == *final(old(self).storage),
                pages == self.sm().store@,
                f == self.sm().footer,
                spec_label_insert_into_page(pages, f, label_id, ptr, f.first_label_page, pages.len())
                    == spec_label_insert_into_page(pages, f, label_id, ptr, page_id_val, fuel as nat),
            decreases fuel,
        {
            if fuel == 0 {
                return Err(NexoraGraphLabelError::Storage(NexoraStorageError::CorruptPage(page_id_val)));
            }
            let page_id = PageId(page_id_val);
            let mut page = self.read_label_page(page_id)?;
            if !page.label_page_header().is_full() {
                page.insert_entry(label_id, ptr)?;
                let _ = self.storage.store.write_page(page_id, page.as_bytes(), true);
                return Ok(());
            }
            page_id_val = page.page_header().next_page_id;
            fuel = fuel - 1;
        }
        self.insert_into_new_page(label_id, ptr)
    }

    fn insert_into_new_page(&mut self, label_id: u32, ptr: PackedPtr) -> (r: Result<(), NexoraGraphLabelError>)
        requires
            old(self).sm().inv(),
            old(self).sm().can_allocate(1),
        ensures
            final(self).sm().inv(),
            *final(final(self).storage) == *final(old(self).storage),
            final(self).sm().header == old(self).sm().header,
            ({
                let s = spec_label_insert_into_new_page(old(self).sm().store@, old(self).sm().footer, label_id, ptr);
                &&& r == s.0
                &&& final(self).sm().store@ == s.1
                &&& final(self).sm().footer == s.2
                &&& final(self).sm().is_footer_dirty() == (old(self).sm().is_footer_dirty() || s.3)
            }),
            forall|n: int| 1 <= n && #[trigger] old(self).sm().can_allocate(n) ==> final(self).sm().can_allocate(n - 1),
            same_graph_counters(old(self).sm().footer, final(self).sm().footer),
    {
        let new_page_id = match self.storage.allocate_page() {
            Ok(p) => p,
            Err(e) => return Err(NexoraGraphLabelError::Storage(e)),
        };
        let old_first = self.storage.footer.first_label_page;
        let mut page = GraphLabelPage::init(new_page_id.as_u64(), label_id);
        page.set_next_page_id(old_first);
        page.insert_entry(label_id, ptr)?;
        let _ = self.storage.store.write_page(new_page_id, page.as_bytes(), true);
        self.storage.footer.first_label_page = new_page_id.as_u64();
        self.storage.mark_footer_dirty();
        Ok(())
    }
}

} // verus!
