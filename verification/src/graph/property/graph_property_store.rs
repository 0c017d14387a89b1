//! Properties: key/value records in a chain of property pages, each record
//! able to link to the next property of the same owner.
use vstd::prelude::*;

use crate::utils::codec::{group_codec, put_u64};
use crate::storage::constants::{PAGE_SIZE, SENTINEL_PAGE_ID};
use crate::storage::error::NexoraStorageError;
use crate::storage::models::{NexoraFooter, PageId, view_page_header};
use crate::storage::page_store::{pages_after_write, spec_read_page, stamped, lemma_stamped_checksum_ok};
use crate::storage::storage_manager::{StorageManager, spec_allocate};
use crate::graph::node::graph_node_store::Outcome;
use crate::graph::property::constants::MAX_PROPERTY_RECORD_COUNT;
use crate::graph::property::error::NexoraGraphPropertyError;
use crate::graph::property::page::{
    GraphPropertyPage, PropertyPageRecord, property_record_offset, spec_delete_record, spec_get_record,
    spec_insert_record, spec_property_page_full, spec_property_page_init, lemma_property_page_insert_then_get,
    lemma_property_page_delete_then_get, lemma_property_field_write, lemma_property_page_same_tail,
};
use crate::graph::record::types::{
    PackedPtr, FLAG_ACTIVE, NULL_PTR_VALUE, packed, ptr_page_id, ptr_slot, lemma_packed_ptr_roundtrip,
};

verus! {

broadcast use group_codec;

/// What reading the record at `ptr` gives.
pub open spec fn spec_property_get(pages: Seq<Seq<u8>>, ptr: PackedPtr) -> Result<PropertyPageRecord, NexoraGraphPropertyError> {
    match spec_read_page(pages, ptr_page_id(ptr), true) {
        Err(e) => Err(NexoraGraphPropertyError::Storage(e)),
        Ok(s) => spec_get_record(s, ptr_slot(ptr) as int),
    }
}

/// What rewriting the page of `ptr` with `update` (given the page bytes and
/// the offset of the record) does.
pub open spec fn spec_property_update(
    pages: Seq<Seq<u8>>,
    ptr: PackedPtr,
    update: spec_fn(Seq<u8>, int) -> Seq<u8>,
) -> (Result<(), NexoraGraphPropertyError>, Seq<Seq<u8>>) {
    match spec_read_page(pages, ptr_page_id(ptr), true) {
        Err(e) => (Err(NexoraGraphPropertyError::Storage(e)), pages),
        Ok(s) => (Ok(()), pages_after_write(pages, ptr_page_id(ptr) as int, stamped(update(s, ptr_slot(ptr) as int)))),
    }
}

/// Sets the value pointer of the record in slot `slot`.
pub open spec fn with_value(v: PackedPtr) -> spec_fn(Seq<u8>, int) -> Seq<u8> {
    |s: Seq<u8>, slot: int| put_u64(s, property_record_offset(slot) + 8, v.0)
}

/// Sets the next pointer of the record in slot `slot`.
pub open spec fn with_next(n: PackedPtr) -> spec_fn(Seq<u8>, int) -> Seq<u8> {
    |s: Seq<u8>, slot: int| put_u64(s, property_record_offset(slot) + 16, n.0)
}

/// Tombstones the record in slot `slot`.
pub open spec fn deleted_record() -> spec_fn(Seq<u8>, int) -> Seq<u8> {
    |s: Seq<u8>, slot: int| spec_delete_record(s, slot)
}

/// What storing a record in a new property page at the front of the chain does.
pub open spec fn spec_property_insert_into_new_page(
    pages: Seq<Seq<u8>>,
    f: NexoraFooter,
    key: PackedPtr,
    value: PackedPtr,
    next: PackedPtr,
) -> Outcome<(PageId, usize), NexoraGraphPropertyError> {
    let (a, f1) = spec_allocate(pages, f);
    match a {
        Err(e) => (Err(NexoraGraphPropertyError::Storage(e)), pages, f1, false),
        Ok(np) => match spec_insert_record(put_u64(spec_property_page_init(np.0), 8, f1.first_property_page), key, value, next) {
            Err(e) => (Err(e), pages, f1, true),
            Ok((slot, s)) => (
                Ok((np, slot)),
                pages_after_write(pages, np.0 as int, stamped(s)),
                NexoraFooter { first_property_page: np.0, ..f1 },
                true,
            ),
        },
    }
}

/// What storing a record does: the first page of the chain from `pid` that
/// is not full takes it, or a new page when all are.
pub open spec fn spec_property_insert_into_page(
    pages: Seq<Seq<u8>>,
    f: NexoraFooter,
    key: PackedPtr,
    value: PackedPtr,
    next: PackedPtr,
    pid: u64,
    fuel: nat,
) -> Outcome<(PageId, usize), NexoraGraphPropertyError>
    decreases fuel,
{
    if pid == SENTINEL_PAGE_ID {
        spec_property_insert_into_new_page(pages, f, key, value, next)
    } else if fuel == 0 {
        (Err(NexoraGraphPropertyError::Storage(NexoraStorageError::CorruptPage(pid))), pages, f, false)
    } else {
        match spec_read_page(pages, pid, true) {
            Err(e) => (Err(NexoraGraphPropertyError::Storage(e)), pages, f, false),
            Ok(s) => if !spec_property_page_full(s) {
                match spec_insert_record(s, key, value, next) {
                    Err(e) => (Err(e), pages, f, false),
                    Ok((slot, s2)) => (Ok((PageId(pid), slot)), pages_after_write(pages, pid as int, stamped(s2)), f, false),
                }
            } else {
                spec_property_insert_into_page(pages, f, key, value, next, view_page_header(s).next_page_id, (fuel - 1) as nat)
            },
        }
    }
}

/// What inserting a property record linked to `next` does; the result points
/// at the new record.
pub open spec fn spec_property_insert(
    pages: Seq<Seq<u8>>,
    f: NexoraFooter,
    key: PackedPtr,
    value: PackedPtr,
    next: PackedPtr,
) -> Outcome<PackedPtr, NexoraGraphPropertyError> {
    let r = spec_property_insert_into_page(pages, f, key, value, next, f.first_property_page, pages.len());
    match r.0 {
        Err(e) => (Err(e), r.1, r.2, r.3),
        Ok((pid, slot)) => (Ok(PackedPtr(packed(pid.0, slot as u8))), r.1, r.2, r.3),
    }
}

/// Where a stored record went: its page, read back with its checksum
/// checked, holds the record in the slot it was given.
proof fn lemma_insert_into_page_readback(
    pages: Seq<Seq<u8>>,
    f: NexoraFooter,
    key: PackedPtr,
    value: PackedPtr,
    next: PackedPtr,
    pid: u64,
    fuel: nat,
)
    requires
        forall|i: int| 0 <= i < pages.len() ==> #[trigger] pages[i].len() == PAGE_SIZE,
        spec_property_insert_into_page(pages, f, key, value, next, pid, fuel).0 is Ok,
    ensures
        ({
            let r = spec_property_insert_into_page(pages, f, key, value, next, pid, fuel);
            let (p, slot) = r.0->Ok_0;
            &&& p.0 < r.1.len()
            &&& (p.0 < pages.len() || p.0 == f.page_count)
            &&& spec_read_page(r.1, p.0, true) is Ok
            &&& spec_get_record(spec_read_page(r.1, p.0, true)->Ok_0, slot as int)
                == Ok::<PropertyPageRecord, NexoraGraphPropertyError>(PropertyPageRecord { key, value, next, flags: FLAG_ACTIVE })
        }),
    decreases fuel,
{
    let r = spec_property_insert_into_page(pages, f, key, value, next, pid, fuel);
    if pid == SENTINEL_PAGE_ID {
        let (a, f1) = spec_allocate(pages, f);
        let np = a->Ok_0;
        let s0 = put_u64(spec_property_page_init(np.0), 8, f1.first_property_page);
        let (slot, s) = spec_insert_record(s0, key, value, next)->Ok_0;
        lemma_property_page_insert_then_get(s0, key, value, next);
        lemma_stamped_checksum_ok(s);
        assert(spec_get_record(stamped(s), slot as int) == spec_get_record(s, slot as int));
    } else {
        let s = spec_read_page(pages, pid, true)->Ok_0;
        if !spec_property_page_full(s) {
            let (slot, s2) = spec_insert_record(s, key, value, next)->Ok_0;
            lemma_property_page_insert_then_get(s, key, value, next);
            lemma_stamped_checksum_ok(s2);
            assert(spec_get_record(stamped(s2), slot as int) == spec_get_record(s2, slot as int));
        } else {
            lemma_insert_into_page_readback(pages, f, key, value, next, view_page_header(s).next_page_id, (fuel - 1) as nat);
        }
    }
}

/// A property record, once stored, reads back through the pointer the store
/// hands out for it (in a store of fewer than 2^56 pages, the most a packed
/// pointer can name).
pub proof fn lemma_property_insert_then_get(
    pages: Seq<Seq<u8>>,
    f: NexoraFooter,
    key: PackedPtr,
    value: PackedPtr,
    next: PackedPtr,
)
    requires
        forall|i: int| 0 <= i < pages.len() ==> #[trigger] pages[i].len() == PAGE_SIZE,
        pages.len() < 0x100_0000_0000_0000,
        f.page_count < 0x100_0000_0000_0000,
        spec_property_insert(pages, f, key, value, next).0 is Ok,
    ensures
        ({
            let s = spec_property_insert(pages, f, key, value, next);
            spec_property_get(s.1, s.0->Ok_0) == Ok::<PropertyPageRecord, NexoraGraphPropertyError>(
                PropertyPageRecord { key, value, next, flags: FLAG_ACTIVE },
            )
        }),
{
    let r = spec_property_insert_into_page(pages, f, key, value, next, f.first_property_page, pages.len());
    lemma_insert_into_page_readback(pages, f, key, value, next, f.first_property_page, pages.len());
    let (p, slot) = r.0->Ok_0;
    lemma_packed_ptr_roundtrip(p.0, slot as u8);
}

/// Reading a property record right after deleting it finds nothing.
pub proof fn lemma_property_delete_then_get(pages: Seq<Seq<u8>>, ptr: PackedPtr)
    requires
        forall|i: int| 0 <= i < pages.len() ==> #[trigger] pages[i].len() == PAGE_SIZE,
        ptr_slot(ptr) < MAX_PROPERTY_RECORD_COUNT,
        spec_property_update(pages, ptr, deleted_record()).0 is Ok,
    ensures
        spec_property_get(spec_property_update(pages, ptr, deleted_record()).1, ptr)
            == Err::<PropertyPageRecord, NexoraGraphPropertyError>(NexoraGraphPropertyError::RecordNotFound),
{
    let pid = ptr_page_id(ptr);
    let slot = ptr_slot(ptr) as int;
    let x = spec_delete_record(pages[pid as int], slot);
    lemma_stamped_checksum_ok(x);
    lemma_property_page_same_tail(x, stamped(x));
    lemma_property_page_delete_then_get(pages[pid as int], slot);
    assert(spec_get_record(stamped(x), slot) == spec_get_record(x, slot));
}

/// Reading a property record right after setting its value pointer gives
/// the record with the new value, for a record that reads back.
pub proof fn lemma_property_update_value_then_get(pages: Seq<Seq<u8>>, ptr: PackedPtr, value: PackedPtr)
    requires
        forall|i: int| 0 <= i < pages.len() ==> #[trigger] pages[i].len() == PAGE_SIZE,
        ptr_slot(ptr) < MAX_PROPERTY_RECORD_COUNT,
        spec_property_get(pages, ptr) is Ok,
    ensures
        spec_property_get(spec_property_update(pages, ptr, with_value(value)).1, ptr)
            == Ok::<PropertyPageRecord, NexoraGraphPropertyError>(PropertyPageRecord { value, ..spec_property_get(pages, ptr)->Ok_0 }),
{
    let pid = ptr_page_id(ptr);
    let slot = ptr_slot(ptr) as int;
    let x = put_u64(pages[pid as int], property_record_offset(slot) + 8, value.0);
    lemma_stamped_checksum_ok(x);
    lemma_property_page_same_tail(x, stamped(x));
    lemma_property_field_write(pages[pid as int], slot, 8, value.0);
    assert(spec_get_record(stamped(x), slot) == spec_get_record(x, slot));
}

/// Reading a property record right after setting its next pointer gives the
/// record with the new next pointer, for a record that reads back.
pub proof fn lemma_property_update_next_then_get(pages: Seq<Seq<u8>>, ptr: PackedPtr, next: PackedPtr)
    requires
        forall|i: int| 0 <= i < pages.len() ==> #[trigger] pages[i].len() == PAGE_SIZE,
        ptr_slot(ptr) < MAX_PROPERTY_RECORD_COUNT,
        spec_property_get(pages, ptr) is Ok,
    ensures
        spec_property_get(spec_property_update(pages, ptr, with_next(next)).1, ptr)
            == Ok::<PropertyPageRecord, NexoraGraphPropertyError>(PropertyPageRecord { next, ..spec_property_get(pages, ptr)->Ok_0 }),
{
    let pid = ptr_page_id(ptr);
    let slot = ptr_slot(ptr) as int;
    let x = put_u64(pages[pid as int], property_record_offset(slot) + 16, next.0);
    lemma_stamped_checksum_ok(x);
    lemma_property_page_same_tail(x, stamped(x));
    lemma_property_field_write(pages[pid as int], slot, 16, next.0);
    assert(spec_get_record(stamped(x), slot) == spec_get_record(x, slot));
}

pub struct PropertyStore<'a> {
    pub storage: &'a mut StorageManager,
}

impl<'a> PropertyStore<'a> {
    /// The storage manager as it stands now.
    pub open spec fn sm(&self) -> StorageManager {
        *self.storage
    }

    pub fn new(storage: &'a mut StorageManager) -> (r: Self)
        ensures
            *r.storage == *old(storage),
            *final(r.storage) == *final(storage),
    {
        PropertyStore { storage }
    }

    fn read_property_page(&self, page_id: PageId) -> (r: Result<GraphPropertyPage, NexoraGraphPropertyError>)
        requires
            self.sm().inv(),
        ensures
            match spec_read_page(self.sm().store@, page_id.0, true) {
                Err(e) => r == Err::<GraphPropertyPage, NexoraGraphPropertyError>(NexoraGraphPropertyError::Storage(e)),
                Ok(s) => r is Ok && r->Ok_0@ == s && r->Ok_0.inv(),
            },
    {
        let mut buf: Vec<u8> = Vec::new();
        match self.storage.store.read_page(page_id, &mut buf, true) {
            Ok(()) => {},
            Err(e) => return Err(NexoraGraphPropertyError::Storage(e)),
        }
        Ok(GraphPropertyPage::from_bytes(buf))
    }

    fn write_property_page(&mut self, page_id: PageId, page: &GraphPropertyPage)
        requires
            old(self).sm().inv(),
            page.inv(),
        ensures
            final(self).sm().inv(),
            *final(final(self).storage) == *final(old(self).storage),
            final(self).sm().store@ == pages_after_write(old(self).sm().store@, page_id.0 as int, stamped(page@)),
            final(self).sm().footer == old(self).sm().footer,
            final(self).sm().header == old(self).sm().header,
            final(self).sm().is_footer_dirty() == old(self).sm().is_footer_dirty(),
    {
        let _ = self.storage.store.write_page(page_id, page.as_bytes(), true);
    }

    /// Stores a record with a null next link; returns a pointer to it.
    pub fn insert(&mut self, key: PackedPtr, value: PackedPtr) -> (r: Result<PackedPtr, NexoraGraphPropertyError>)
        requires
            old(self).sm().inv(),
            old(self).sm().can_allocate(1),
        ensures
            final(self).sm().inv(),
            *final(final(self).storage) == *final(old(self).storage),
            final(self).sm().header == old(self).sm().header,
            ({
                let s = spec_property_insert(old(self).sm().store@, old(self).sm().footer, key, value, PackedPtr(NULL_PTR_VALUE));
                &&& r == s.0
                &&& final(self).sm().store@ == s.1
                &&& final(self).sm().footer == s.2
                &&& final(self).sm().is_footer_dirty() == (old(self).sm().is_footer_dirty() || s.3)
            }),
    {
        let (page_id, slot) = self.insert_into_page(key, value, PackedPtr::null())?;
        Ok(PackedPtr::new(page_id.as_u64(), slot as u8))
    }

    /// Stores a record linked to `next`; returns a pointer to it.
    pub fn insert_chained(&mut self, key: PackedPtr, value: PackedPtr, next: PackedPtr) -> (r: Result<PackedPtr, NexoraGraphPropertyError>)
        requires
            old(self).sm().inv(),
            old(self).sm().can_allocate(1),
        ensures
            final(self).sm().inv(),
            *final(final(self).storage) == *final(old(self).storage),
            final(self).sm().header == old(self).sm().header,
            ({
                let s = spec_property_insert(old(self).sm().store@, old(self).sm().footer, key, value, next);
                &&& r == s.0
                &&& final(self).sm().store@ == s.1
                &&& final(self).sm().footer == s.2
                &&& final(self).sm().is_footer_dirty() == (old(self).sm().is_footer_dirty() || s.3)
            }),
    {
        let (page_id, slot) = self.insert_into_page(key, value, next)?;
        Ok(PackedPtr::new(page_id.as_u64(), slot as u8))
    }

    /// Rewrites one pointer field of the record at `ptr`.
    fn update_field(&mut self, ptr: PackedPtr, field: usize, v: PackedPtr) -> (r: Result<(), NexoraGraphPropertyError>)
        requires
            old(self).sm().inv(),
            ptr_slot(ptr) < MAX_PROPERTY_RECORD_COUNT,
            field == 8 || field == 16,
        ensures
            final(self).sm().inv(),
            *final(final(self).storage) == *final(old(self).storage),
            final(self).sm().header == old(self).sm().header,
            final(self).sm().footer == old(self).sm().footer,
            final(self).sm().is_footer_dirty() == old(self).sm().is_footer_dirty(),
            ({
                let s = spec_property_update(old(self).sm().store@, ptr, if field == 8 { with_value(v) } else { with_next(v) });
                r == s.0 && final(self).sm().store@ == s.1
            }),
    {
        let page_id = PageId(ptr.page_id());
        let mut page = self.read_property_page(page_id)?;
        page.set_record_ptr(ptr.slot() as usize, field, v);
        self.write_property_page(page_id, &page);
        Ok(())
    }

    /// Sets the value pointer of the record at `ptr`.
    pub fn update_value(&mut self, ptr: PackedPtr, new_value: PackedPtr) -> (r: Result<(), NexoraGraphPropertyError>)
        requires
            old(self).sm().inv(),
            ptr_slot(ptr) < MAX_PROPERTY_RECORD_COUNT,
        ensures
            final(self).sm().inv(),
            *final(final(self).storage) == *final(old(self).storage),
            final(self).sm().header == old(self).sm().header,
            final(self).sm().footer == old(self).sm().footer,
            final(self).sm().is_footer_dirty() == old(self).sm().is_footer_dirty(),
            ({
                let s = spec_property_update(old(self).sm().store@, ptr, with_value(new_value));
                r == s.0 && final(self).sm().store@ == s.1
            }),
    {
        self.update_field(ptr, 8, new_value)
    }

    /// Sets the next pointer of the record at `ptr`.
    pub fn update_next(&mut self, ptr: PackedPtr, new_next: PackedPtr) -> (r: Result<(), NexoraGraphPropertyError>)
        requires
            old(self).sm().inv(),
            ptr_slot(ptr) < MAX_PROPERTY_RECORD_COUNT,
        ensures
            final(self).sm().inv(),
            *final(final(self).storage) == *final(old(self).storage),
            final(self).sm().header == old(self).sm().header,
            final(self).sm().footer == old(self).sm().footer,
            final(self).sm().is_footer_dirty() == old(self).sm().is_footer_dirty(),
            ({
                let s = spec_property_update(old(self).sm().store@, ptr, with_next(new_next));
                r == s.0 && final(self).sm().store@ == s.1
            }),
    {
        self.update_field(ptr, 16, new_next)
    }

    /// The live record at `ptr`.
    pub fn get(&self, ptr: PackedPtr) -> (r: Result<PropertyPageRecord, NexoraGraphPropertyError>)
        requires
            self.sm().inv(),
        ensures
            r == spec_property_get(self.sm().store@, ptr),
    {
        let page = self.read_property_page(PageId(ptr.page_id()))?;
        page.get_record(ptr.slot() as usize)
    }

    /// Tombstones the record at `ptr`.
    pub fn delete(&mut self, ptr: PackedPtr) -> (r: Result<(), NexoraGraphPropertyError>)
        requires
            old(self).sm().inv(),
            ptr_slot(ptr) < MAX_PROPERTY_RECORD_COUNT,
        ensures
            final(self).sm().inv(),
            *final(final(self).storage) == *final(old(self).storage),
            final(self).sm().header == old(self).sm().header,
            final(self).sm().footer == old(self).sm().footer,
            final(self).sm().is_footer_dirty() == old(self).sm().is_footer_dirty(),
            ({
                let s = spec_property_update(old(self).sm().store@, ptr, deleted_record());
                r == s.0 && final(self).sm().store@ == s.1
            }),
    {
        let page_id = PageId(ptr.page_id());
        let mut page = self.read_property_page(page_id)?;
        page.delete_record(ptr.slot() as usize);
        self.write_property_page(page_id, &page);
        Ok(())
    }

    fn insert_into_page(&mut self, key: PackedPtr, value: PackedPtr, next: PackedPtr) -> (r: Result<(PageId, usize), NexoraGraphPropertyError>)
        requires
            old(self).sm().inv(),
            old(self).sm().can_allocate(1),
        ensures
            final(self).sm().inv(),
            *final(final(self).storage) == *final(old(self).storage),
            final(self).sm().header == old(self).sm().header,
            r matches Ok((p, slot)) ==> slot < MAX_PROPERTY_RECORD_COUNT,
            ({
                let s = spec_property_insert_into_page(old(self).sm().store@, old(self).sm().footer, key, value, next,
                    old(self).sm().footer.first_property_page, old(self).sm().store@.len());
                &&& r == s.0
                &&& final(self).sm().store@ == s.1
                &&& final(self).sm().footer == s.2
                &&& final(self).sm().is_footer_dirty() == (old(self).sm().is_footer_dirty() || s.3)
            }),
    {
        let ghost pages = self.sm().store@;
        let ghost f = self.sm().footer;
        let mut page_id_val = self.storage.footer.first_property_page;
        let mut fuel = self.storage.store.page_count();
        while page_id_val != SENTINEL_PAGE_ID
            invariant
                self.sm().inv(),
                self.sm() == *old(self).storage,
                *final(self.storage) == *final(old(self).storage),
                pages == self.sm().store@,
                f == self.sm().footer,
                spec_property_insert_into_page(pages, f, key, value, next, f.first_property_page, pages.len())
                    == spec_property_insert_into_page(pages, f, key, value, next, page_id_val, fuel as nat),
            decreases fuel,
        {
            if fuel == 0 {
                return Err(NexoraGraphPropertyError::Storage(NexoraStorageError::CorruptPage(page_id_val)));
            }
            let page_id = PageId(page_id_val);
            let mut page = self.read_property_page(page_id)?;
            if !page.is_full() {
                let slot = page.insert_record(key, value, next)?;
                self.write_property_page(page_id, &page);
                return Ok((page_id, slot));
            }
            page_id_val = page.page_header().next_page_id;
            fuel = fuel - 1;
        }
        self.insert_into_new_page(key, value, next)
    }

    fn insert_into_new_page(&mut self, key: PackedPtr, value: PackedPtr, next: PackedPtr) -> (r: Result<(PageId, usize), NexoraGraphPropertyError>)
        requires
            old(self).sm().inv(),
            old(self).sm().can_allocate(1),
        ensures
            final(self).sm().inv(),
            *final(final(self).storage) == *final(old(self).storage),
            final(self).sm().header == old(self).sm().header,
            r matches Ok((p, slot)) ==> slot < MAX_PROPERTY_RECORD_COUNT,
            ({
                let s = spec_property_insert_into_new_page(old(self).sm().store@, old(self).sm().footer, key, value, next);
                &&& r == s.0
                &&& final(self).sm().store@ == s.1
                &&& final(self).sm().footer == s.2
                &&& final(self).sm().is_footer_dirty() == (old(self).sm().is_footer_dirty() || s.3)
            }),
    {
        let new_page_id = match self.storage.allocate_page() {
            Ok(p) => p,
            Err(e) => return Err(NexoraGraphPropertyError::Storage(e)),
        };
        let old_first = self.storage.footer.first_property_page;
        let mut page = GraphPropertyPage::init(new_page_id.as_u64());
        page.set_next_page_id(old_first);
        let slot = page.insert_record(key, value, next)?;
        self.write_property_page(new_page_id, &page);
        self.storage.footer.first_property_page = new_page_id.as_u64();
        self.storage.mark_footer_dirty();
        Ok((new_page_id, slot))
    }
}

} // verus!
