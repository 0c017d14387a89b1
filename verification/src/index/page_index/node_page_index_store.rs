//! The node page index: for the `i`-th node page, the id of that page.
//!
//! The index is a chain of directory pages starting at the footer's
//! `first_page_index_page`; entry `i` lives in record `i % 507` of the
//! `i / 507`-th directory page.
use vstd::prelude::*;

use crate::utils::codec::{group_codec, read_u64, put_u64};
use crate::storage::constants::{PAGE_SIZE, SENTINEL_PAGE_ID};
use crate::storage::error::NexoraStorageError;
use crate::storage::models::{
    NexoraFooter, NexoraHeader, NexoraPageHeader, PageId, PageType, page_type_code, view_page_header, put_page_header,
    footer_page_bytes,
};
use crate::storage::page_store::{pages_after_write, spec_read_page, stamped, checksum_ok, lemma_stamped_checksum_ok, zero_bytes};
use crate::storage::storage_manager::{
    StorageManager, spec_allocate, spec_read_header, spec_read_footer, footer_contents, lemma_close_then_reopen,
};
use crate::index::page_index::constants::MAX_NODE_PAGE_INDEX_RECORD_COUNT;
use crate::index::page_index::page::{NodePageIndexPage, index_record, index_record_offset};

verus! {

broadcast use group_codec;

/// The `next_page_id` in the header of page `pid`.
pub open spec fn next_of(pages: Seq<Seq<u8>>, pid: u64) -> u64 {
    view_page_header(pages[pid as int]).next_page_id
}

/// The page reached by following `k` next pointers from `pid`.
pub open spec fn spec_dir_page_id(pages: Seq<Seq<u8>>, pid: u64, k: nat) -> Result<PageId, NexoraStorageError>
    decreases k,
{
    if pid == SENTINEL_PAGE_ID {
        Err(NexoraStorageError::CorruptPage(SENTINEL_PAGE_ID))
    } else if k == 0 {
        Ok(PageId(pid))
    } else if pid >= pages.len() {
        Err(NexoraStorageError::UnexpectedEof(pid))
    } else {
        spec_dir_page_id(pages, next_of(pages, pid), (k - 1) as nat)
    }
}

/// What looking up entry `page_index` gives.
pub open spec fn spec_index_lookup(pages: Seq<Seq<u8>>, first: u64, page_index: int) -> Result<PageId, NexoraStorageError> {
    match spec_dir_page_id(pages, first, (page_index / MAX_NODE_PAGE_INDEX_RECORD_COUNT as int) as nat) {
        Err(e) => Err(e),
        Ok(d) => match spec_read_page(pages, d.0, true) {
            Err(e) => Err(e),
            Ok(s) => Ok(PageId(index_record(s, page_index % MAX_NODE_PAGE_INDEX_RECORD_COUNT as int))),
        },
    }
}

/// The bytes of a new directory page `np` whose first entry is `page_id`.
pub open spec fn new_index_page_bytes(np: u64, page_id: u64) -> Seq<u8> {
    put_u64(
        put_page_header(
            zero_bytes(),
            NexoraPageHeader {
                page_id: np,
                next_page_id: SENTINEL_PAGE_ID,
                prev_page_id: SENTINEL_PAGE_ID,
                checksum: 0,
                page_type: page_type_code(PageType::PageIndex),
            },
        ),
        index_record_offset(0),
        page_id,
    )
}

/// What inserting entry `page_index` does: the result, the pages and the
/// footer afterwards.
pub open spec fn spec_index_insert(
    pages: Seq<Seq<u8>>,
    f: NexoraFooter,
    page_index: int,
    page_id: u64,
) -> (Result<(), NexoraStorageError>, Seq<Seq<u8>>, NexoraFooter) {
    let dir = page_index / MAX_NODE_PAGE_INDEX_RECORD_COUNT as int;
    let slot = page_index % MAX_NODE_PAGE_INDEX_RECORD_COUNT as int;
    let first = f.first_page_index_page;
    if slot != 0 {
        match spec_dir_page_id(pages, first, dir as nat) {
            Err(e) => (Err(e), pages, f),
            Ok(d) => match spec_read_page(pages, d.0, true) {
                Err(e) => (Err(e), pages, f),
                Ok(s) => (Ok(()), pages_after_write(pages, d.0 as int, stamped(put_u64(s, index_record_offset(slot), page_id))), f),
            },
        }
    } else {
        let (a, f1) = spec_allocate(pages, f);
        match a {
            Err(e) => (Err(e), pages, f1),
            Ok(np) => {
                let p1 = pages_after_write(pages, np.0 as int, stamped(new_index_page_bytes(np.0, page_id)));
                if dir == 0 {
                    (Ok(()), p1, NexoraFooter { first_page_index_page: np.0, ..f1 })
                } else {
                    match spec_dir_page_id(p1, first, (dir - 1) as nat) {
                        Err(e) => (Err(e), p1, f1),
                        Ok(prev) => match spec_read_page(p1, prev.0, false) {
                            Err(e) => (Err(e), p1, f1),
                            Ok(ps) => (Ok(()), pages_after_write(p1, prev.0 as int, stamped(put_u64(ps, 8, np.0))), f1),
                        },
                    }
                }
            },
        }
    }
}

/// Whether following `k` next pointers from `pid` reads only headers of
/// pages that exist and differ from `x`.
pub open spec fn walk_avoids(pages: Seq<Seq<u8>>, pid: u64, k: nat, x: u64) -> bool
    decreases k,
{
    k == 0 || (pid != SENTINEL_PAGE_ID && pid < pages.len() && pid != x && walk_avoids(pages, next_of(pages, pid), (k - 1) as nat, x))
}

/// A walk that reads only pages of the store avoids every page past its end.
pub proof fn lemma_walk_avoids_beyond(pages: Seq<Seq<u8>>, pid: u64, k: nat, x: u64, y: u64)
    requires
        walk_avoids(pages, pid, k, x),
        y >= pages.len(),
    ensures
        walk_avoids(pages, pid, k, y),
    decreases k,
{
    if k > 0 {
        lemma_walk_avoids_beyond(pages, next_of(pages, pid), (k - 1) as nat, x, y);
    }
}

/// A walk that reaches a page reads only pages of the store, so it avoids
/// every page past its end.
pub proof fn lemma_walk_ok_avoids_beyond(pages: Seq<Seq<u8>>, pid: u64, k: nat, y: u64)
    requires
        spec_dir_page_id(pages, pid, k) is Ok,
        y >= pages.len(),
    ensures
        walk_avoids(pages, pid, k, y),
    decreases k,
{
    if k > 0 {
        lemma_walk_ok_avoids_beyond(pages, next_of(pages, pid), (k - 1) as nat, y);
    }
}

/// A walk over pages of the store, in a store whose pages that differ from a
/// second store are all avoided by the walk, goes the same in both.
pub proof fn lemma_walk_same_pages(pages: Seq<Seq<u8>>, p2: Seq<Seq<u8>>, pid: u64, k: nat, x: u64)
    requires
        walk_avoids(pages, pid, k, x),
        pages.len() <= p2.len(),
        forall|y: u64| y < pages.len() && p2[y as int] != pages[y as int] ==> #[trigger] walk_avoids(pages, pid, k, y),
    ensures
        spec_dir_page_id(p2, pid, k) == spec_dir_page_id(pages, pid, k),
        forall|y: u64| #[trigger] walk_avoids(p2, pid, k, y) == walk_avoids(pages, pid, k, y),
    decreases k,
{
    if k > 0 {
        if p2[pid as int] != pages[pid as int] {
            assert(walk_avoids(pages, pid, k, pid));
        }
        let y = next_of(pages, pid);
        assert forall|z: u64| z < pages.len() && p2[z as int] != pages[z as int] implies #[trigger] walk_avoids(pages, y, (k - 1) as nat, z) by {
            assert(walk_avoids(pages, pid, k, z));
        }
        lemma_walk_same_pages(pages, p2, y, (k - 1) as nat, x);
        assert(next_of(p2, pid) == y);
        assert forall|z: u64| #[trigger] walk_avoids(p2, pid, k, z) == walk_avoids(pages, pid, k, z) by {
            assert(walk_avoids(p2, y, (k - 1) as nat, z) == walk_avoids(pages, y, (k - 1) as nat, z));
        }
    }
}

/// Whether adding entry `page_index` to the index, and looking it up, walks
/// only pages of the store other than `x`, to a directory page of the store
/// other than `x` that the walk does not pass through.
pub open spec fn index_walk_clear(pages: Seq<Seq<u8>>, first: u64, page_index: int, x: u64) -> bool {
    let dir = page_index / MAX_NODE_PAGE_INDEX_RECORD_COUNT as int;
    let k: nat = if page_index % MAX_NODE_PAGE_INDEX_RECORD_COUNT as int == 0 && dir > 0 { (dir - 1) as nat } else { dir as nat };
    &&& walk_avoids(pages, first, k, x)
    &&& (spec_dir_page_id(pages, first, k) matches Ok(d) ==> d.0 < pages.len() && d.0 != x && walk_avoids(pages, first, k, d.0))
}

/// A walk that avoids page `x` is not changed by writing page `x`.
pub proof fn lemma_walk_write_frame(pages: Seq<Seq<u8>>, pid: u64, k: nat, x: u64, d: Seq<u8>, y: u64)
    requires
        walk_avoids(pages, pid, k, x),
    ensures
        spec_dir_page_id(pages_after_write(pages, x as int, d), pid, k) == spec_dir_page_id(pages, pid, k),
        walk_avoids(pages_after_write(pages, x as int, d), pid, k, y) == walk_avoids(pages, pid, k, y),
    decreases k,
{
    let p2 = pages_after_write(pages, x as int, d);
    if k > 0 {
        assert(p2[pid as int] == pages[pid as int]);
        lemma_walk_write_frame(pages, next_of(pages, pid), (k - 1) as nat, x, d, y);
    }
}

/// A walk one step longer avoids `x` when the shorter walk does and the page
/// it reaches is a page of the store other than `x`.
pub proof fn lemma_walk_avoids_step(pages: Seq<Seq<u8>>, pid: u64, k: nat, x: u64)
    ensures
        walk_avoids(pages, pid, k + 1, x) == (walk_avoids(pages, pid, k, x)
            && (spec_dir_page_id(pages, pid, k) matches Ok(d) && d.0 < pages.len() && d.0 != x)),
    decreases k,
{
    if pid != SENTINEL_PAGE_ID && pid < pages.len() {
        if k > 0 {
            let k1 = (k - 1) as nat;
            lemma_walk_avoids_step(pages, next_of(pages, pid), k1, x);
            assert(k1 + 1 == k);
            assert(walk_avoids(pages, pid, k + 1, x) == (pid != x && walk_avoids(pages, next_of(pages, pid), k, x)));
            assert(walk_avoids(pages, pid, k, x) == (pid != x && walk_avoids(pages, next_of(pages, pid), k1, x)));
            assert(spec_dir_page_id(pages, pid, k) == spec_dir_page_id(pages, next_of(pages, pid), k1));
        } else {
            assert(walk_avoids(pages, next_of(pages, pid), 0, x));
        }
    }
}

/// A write that keeps every next pointer and the number of pages keeps
/// every walk.
pub proof fn lemma_walk_same_next(pages: Seq<Seq<u8>>, p2: Seq<Seq<u8>>, pid: u64, k: nat)
    requires
        p2.len() == pages.len(),
        forall|q: u64| q < pages.len() ==> #[trigger] next_of(p2, q) == next_of(pages, q),
    ensures
        spec_dir_page_id(p2, pid, k) == spec_dir_page_id(pages, pid, k),
    decreases k,
{
    if k > 0 && pid != SENTINEL_PAGE_ID && pid < pages.len() {
        lemma_walk_same_next(pages, p2, next_of(pages, pid), (k - 1) as nat);
    }
}

/// One more step of a walk goes from where the shorter walk ended.
pub proof fn lemma_walk_step(pages: Seq<Seq<u8>>, pid: u64, k: nat)
    ensures
        spec_dir_page_id(pages, pid, k + 1) == match spec_dir_page_id(pages, pid, k) {
            Err(e) => Err(e),
            Ok(p) => if p.0 >= pages.len() {
                Err(NexoraStorageError::UnexpectedEof(p.0))
            } else {
                spec_dir_page_id(pages, next_of(pages, p.0), 0)
            },
        },
    decreases k,
{
    if k > 0 && pid != SENTINEL_PAGE_ID && pid < pages.len() {
        lemma_walk_step(pages, next_of(pages, pid), (k - 1) as nat);
    }
}

/// Looking up an entry right after inserting it gives the inserted page id.
/// When the insert appends a directory page after the first one, the walk to
/// the directory page before it must not pass through the page that is
/// allocated or through that directory page itself; on a file where the
/// directory chain loops back on itself the insert can relink the chain.
pub proof fn lemma_index_insert_then_lookup(pages: Seq<Seq<u8>>, f: NexoraFooter, page_index: int, page_id: u64)
    requires
        forall|i: int| 0 <= i < pages.len() ==> #[trigger] pages[i].len() == PAGE_SIZE,
        0 <= page_index,
        f.first_free_page == SENTINEL_PAGE_ID ==> f.page_count < u64::MAX,
        spec_index_insert(pages, f, page_index, page_id).0 is Ok,
        page_index % MAX_NODE_PAGE_INDEX_RECORD_COUNT as int == 0 && page_index / MAX_NODE_PAGE_INDEX_RECORD_COUNT as int > 0 ==> {
            let k = (page_index / MAX_NODE_PAGE_INDEX_RECORD_COUNT as int - 1) as nat;
            &&& walk_avoids(pages, f.first_page_index_page, k, spec_allocate(pages, f).0->Ok_0.0)
            &&& walk_avoids(pages, f.first_page_index_page, k, spec_dir_page_id(pages, f.first_page_index_page, k)->Ok_0.0)
        },
    ensures
        ({
            let s = spec_index_insert(pages, f, page_index, page_id);
            &&& spec_index_lookup(s.1, s.2.first_page_index_page, page_index) == Ok::<PageId, NexoraStorageError>(PageId(page_id))
            &&& page_index % MAX_NODE_PAGE_INDEX_RECORD_COUNT as int == 0 ==> spec_dir_page_id(
                s.1,
                s.2.first_page_index_page,
                (page_index / MAX_NODE_PAGE_INDEX_RECORD_COUNT as int) as nat,
            ) == Ok::<PageId, NexoraStorageError>(PageId(spec_allocate(pages, f).0->Ok_0.0))
            &&& forall|i: int| 0 <= i < s.1.len() ==> #[trigger] s.1[i].len() == PAGE_SIZE
            &&& s.1.len() >= pages.len()
            &&& (pages.len() <= f.page_count ==> s.1.len() <= s.2.page_count)
        }),
{
    let dir = page_index / MAX_NODE_PAGE_INDEX_RECORD_COUNT as int;
    let slot = page_index % MAX_NODE_PAGE_INDEX_RECORD_COUNT as int;
    let first = f.first_page_index_page;
    let s = spec_index_insert(pages, f, page_index, page_id);
    if slot != 0 {
        let d = spec_dir_page_id(pages, first, dir as nat)->Ok_0;
        let sd = pages[d.0 as int];
        let nd = stamped(put_u64(sd, index_record_offset(slot), page_id));
        lemma_stamped_checksum_ok(put_u64(sd, index_record_offset(slot), page_id));
        assert forall|q: u64| q < pages.len() implies #[trigger] next_of(s.1, q) == next_of(pages, q) by {
            if q == d.0 {
                assert(read_u64(nd, 8) == read_u64(sd, 8));
            }
        }
        lemma_walk_same_next(pages, s.1, first, dir as nat);
        assert(read_u64(nd, index_record_offset(slot)) == page_id);
    } else {
        let np = spec_allocate(pages, f).0->Ok_0;
        let p1 = pages_after_write(pages, np.0 as int, stamped(new_index_page_bytes(np.0, page_id)));
        lemma_stamped_checksum_ok(new_index_page_bytes(np.0, page_id));
        assert(read_u64(stamped(new_index_page_bytes(np.0, page_id)), index_record_offset(0)) == page_id);
        if dir == 0 {
            assert(s.1 == p1);
        } else {
            let k = (dir - 1) as nat;
            let prev0 = spec_dir_page_id(pages, first, k)->Ok_0.0;
            lemma_walk_write_frame(pages, first, k, np.0, stamped(new_index_page_bytes(np.0, page_id)), prev0);
            let prev = spec_dir_page_id(p1, first, k)->Ok_0;
            assert(prev.0 == prev0);
            let ps = p1[prev.0 as int];
            let nps = stamped(put_u64(ps, 8, np.0));
            lemma_stamped_checksum_ok(put_u64(ps, 8, np.0));
            lemma_walk_write_frame(p1, first, k, prev.0, nps, prev.0);
            lemma_walk_step(s.1, first, k);
            assert(next_of(s.1, prev.0) == np.0);
            if np.0 == prev.0 {
                assert(read_u64(nps, index_record_offset(0)) == page_id);
            }
        }
    }
}

/// The index outlives closing and reopening the file: after a manager
/// closes with a changed footer, the reopened file looks up every entry as
/// before, as long as the footer page is not one of the directory pages the
/// lookup reads.
pub proof fn lemma_index_survives_reopen(pages: Seq<Seq<u8>>, header: NexoraHeader, footer: NexoraFooter, page_index: int)
    requires
        spec_read_header(pages) == Ok::<NexoraHeader, NexoraStorageError>(header),
        header.footer_page_id != 0,
        header.footer_page_id < pages.len(),
        0 <= page_index,
        walk_avoids(pages, footer.first_page_index_page, (page_index / MAX_NODE_PAGE_INDEX_RECORD_COUNT as int) as nat, header.footer_page_id),
        spec_dir_page_id(pages, footer.first_page_index_page, (page_index / MAX_NODE_PAGE_INDEX_RECORD_COUNT as int) as nat)
            != Ok::<PageId, NexoraStorageError>(PageId(header.footer_page_id)),
    ensures
        ({
            let p2 = pages_after_write(pages, header.footer_page_id as int, stamped(footer_page_bytes(footer)));
            &&& spec_read_header(p2) == Ok::<NexoraHeader, NexoraStorageError>(header)
            &&& spec_read_footer(p2, header) is Ok
            &&& spec_index_lookup(p2, spec_read_footer(p2, header)->Ok_0.first_page_index_page, page_index)
                == spec_index_lookup(pages, footer.first_page_index_page, page_index)
        }),
{
    let fid = header.footer_page_id;
    let d = stamped(footer_page_bytes(footer));
    let p2 = pages_after_write(pages, fid as int, d);
    let k = (page_index / MAX_NODE_PAGE_INDEX_RECORD_COUNT as int) as nat;
    lemma_close_then_reopen(pages, header, footer);
    assert(footer_contents(spec_read_footer(p2, header)->Ok_0).first_page_index_page == footer.first_page_index_page);
    lemma_walk_write_frame(pages, footer.first_page_index_page, k, fid, d, fid);
    match spec_dir_page_id(pages, footer.first_page_index_page, k) {
        Ok(dp) => {
            if dp.0 < pages.len() {
                assert(p2[dp.0 as int] == pages[dp.0 as int]);
            }
        },
        Err(_) => {},
    }
}

pub struct NodePageIndexStore<'a> {
    pub storage: &'a mut StorageManager,
}

impl<'a> NodePageIndexStore<'a> {
    /// The storage manager as it stands now.
    pub open spec fn sm(&self) -> StorageManager {
        *self.storage
    }

    pub fn new(storage: &'a mut StorageManager) -> (r: Self)
        ensures
            *r.storage == *old(storage),
            *final(r.storage) == *final(storage),
    {
        NodePageIndexStore { storage }
    }

    fn dir_page_id(&self, dir_page_index: usize) -> (r: Result<PageId, NexoraStorageError>)
        requires
            self.sm().inv(),
        ensures
            r == spec_dir_page_id(self.sm().store@, self.sm().footer.first_page_index_page, dir_page_index as nat),
    {
        let ghost pages = self.storage.store@;
        let ghost first = self.storage.footer.first_page_index_page;
        let mut page_id_val = self.storage.footer.first_page_index_page;
        let mut i: usize = 0;
        while i < dir_page_index
            invariant
                i <= dir_page_index,
                self.sm().inv(),
                pages == self.sm().store@,
                first == self.sm().footer.first_page_index_page,
                spec_dir_page_id(pages, first, dir_page_index as nat)
                    == spec_dir_page_id(pages, page_id_val, (dir_page_index - i) as nat),
            decreases dir_page_index - i,
        {
            if page_id_val == SENTINEL_PAGE_ID {
                return Err(NexoraStorageError::CorruptPage(SENTINEL_PAGE_ID));
            }
            let header = self.storage.store.read_page_header_unchecked(PageId(page_id_val))?;
            page_id_val = header.next_page_id;
            i = i + 1;
        }
        if page_id_val == SENTINEL_PAGE_ID {
            return Err(NexoraStorageError::CorruptPage(SENTINEL_PAGE_ID));
        }
        Ok(PageId(page_id_val))
    }

    /// The page id stored for node page number `page_index`.
    pub fn lookup(&self, page_index: usize) -> (r: Result<PageId, NexoraStorageError>)
        requires
            self.sm().inv(),
        ensures
            r == spec_index_lookup(self.sm().store@, self.sm().footer.first_page_index_page, page_index as int),
    {
        let dir_page_index = page_index / MAX_NODE_PAGE_INDEX_RECORD_COUNT;
        let slot = page_index % MAX_NODE_PAGE_INDEX_RECORD_COUNT;
        let dir_page_id = self.dir_page_id(dir_page_index)?;
        let mut buf: Vec<u8> = Vec::new();
        self.storage.store.read_page(dir_page_id, &mut buf, true)?;
        let page = NodePageIndexPage::from_bytes(buf);
        Ok(PageId(page.record(slot).page_id))
    }

    /// Records `page_id` as node page number `page_index`. The first entry of
    /// a directory page appends that directory page.
    pub fn insert(&mut self, page_index: usize, page_id: PageId) -> (r: Result<(), NexoraStorageError>)
        requires
            old(self).storage.inv(),
            page_index % MAX_NODE_PAGE_INDEX_RECORD_COUNT == 0 ==> old(self).storage.can_allocate(1),
        ensures
            final(self).storage.inv(),
            *final(final(self).storage) == *final(old(self).storage),
            final(self).storage.header == old(self).storage.header,
            ({
                let s = spec_index_insert(old(self).storage.store@, old(self).storage.footer, page_index as int, page_id.0);
                &&& r == s.0
                &&& final(self).storage.store@ == s.1
                &&& final(self).storage.footer == s.2
            }),
            final(self).storage.is_footer_dirty() == (old(self).storage.is_footer_dirty()
                || (page_index % MAX_NODE_PAGE_INDEX_RECORD_COUNT == 0
                    && spec_allocate(old(self).storage.store@, old(self).storage.footer).0 is Ok)),
    {
        let dir_page_index = page_index / MAX_NODE_PAGE_INDEX_RECORD_COUNT;
        let slot = page_index % MAX_NODE_PAGE_INDEX_RECORD_COUNT;
        if slot == 0 {
            self.append_dir_page(dir_page_index, page_id)?;
        } else {
            let dir_page_id = self.dir_page_id(dir_page_index)?;
            let mut buf: Vec<u8> = Vec::new();
            self.storage.store.read_page(dir_page_id, &mut buf, true)?;
            let mut page = NodePageIndexPage::from_bytes(buf);
            page.set_record(slot, page_id.as_u64());
            self.storage.store.write_page(dir_page_id, page.as_bytes(), true)?;
        }
        Ok(())
    }

    fn append_dir_page(&mut self, dir_page_index: usize, page_id: PageId) -> (r: Result<(), NexoraStorageError>)
        requires
            old(self).storage.inv(),
            old(self).storage.can_allocate(1),
        ensures
            final(self).storage.inv(),
            *final(final(self).storage) == *final(old(self).storage),
            final(self).storage.header == old(self).storage.header,
            ({
                let s = spec_index_insert(
                    old(self).storage.store@,
                    old(self).storage.footer,
                    dir_page_index * MAX_NODE_PAGE_INDEX_RECORD_COUNT,
                    page_id.0,
                );
                &&& r == s.0
                &&& final(self).storage.store@ == s.1
                &&& final(self).storage.footer == s.2
            }),
            final(self).storage.is_footer_dirty() == (old(self).storage.is_footer_dirty()
                || spec_allocate(old(self).storage.store@, old(self).storage.footer).0 is Ok),
    {
        assert((dir_page_index * 507) / 507 == dir_page_index && (dir_page_index * 507) % 507 == 0) by (nonlinear_arith);
        let new_dir_page_id = self.storage.allocate_page()?;
        let mut page = NodePageIndexPage::zeroed();
        assert(page@ =~= zero_bytes());
        page.set_page_header(NexoraPageHeader {
            page_id: new_dir_page_id.as_u64(),
            next_page_id: SENTINEL_PAGE_ID,
            prev_page_id: SENTINEL_PAGE_ID,
            checksum: 0,
            page_type: PageType::PageIndex.to_u8(),
        });
        page.set_record(0, page_id.as_u64());
        self.storage.store.write_page(new_dir_page_id, page.as_bytes(), true)?;
        if dir_page_index == 0 {
            self.storage.footer.first_page_index_page = new_dir_page_id.as_u64();
            self.storage.mark_footer_dirty();
        } else {
            let prev_dir_page_id = self.dir_page_id(dir_page_index - 1)?;
            let mut prev_buf: Vec<u8> = Vec::new();
            self.storage.store.read_page(prev_dir_page_id, &mut prev_buf, false)?;
            let mut prev_page = NodePageIndexPage::from_bytes(prev_buf);
            prev_page.set_next_page_id(new_dir_page_id.as_u64());
            self.storage.store.write_page(prev_dir_page_id, prev_page.as_bytes(), true)?;
        }
        Ok(())
    }
}

} // verus!
