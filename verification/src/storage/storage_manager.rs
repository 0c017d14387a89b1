//! Page lifecycle: the file header and footer, page allocation and the free list.
use vstd::prelude::*;

use crate::storage::constants::{PAGE_SIZE, SENTINEL_PAGE_ID, SUPPORTED_VERSION};
use crate::storage::error::NexoraStorageError;
use crate::storage::models::{
    NexoraFooter, NexoraHeader, NexoraPageHeader, PageId, PageType, NEXORA_MAGIC, page_type_code,
    view_header, view_footer, view_page_header, footer_page_bytes, put_page_header, zero_page,
    lemma_put_page_header,
};
use crate::storage::page_store::{PageStore, checksum_ok, checksum_input, crc32_of, stamped, pages_after_write, lemma_stamped_checksum_ok};
use crate::utils::codec::{group_codec, put_u32};

verus! {

/// What reading the file header out of `pages` gives.
pub open spec fn spec_read_header(pages: Seq<Seq<u8>>) -> Result<NexoraHeader, NexoraStorageError> {
    if pages.len() == 0 {
        Err(NexoraStorageError::UnexpectedEof(0))
    } else if !checksum_ok(pages[0]) {
        Err(NexoraStorageError::ChecksumMismatch(0))
    } else if view_header(pages[0]).magic != NEXORA_MAGIC {
        Err(NexoraStorageError::InvalidMagicBytes)
    } else if view_header(pages[0]).version != SUPPORTED_VERSION {
        Err(NexoraStorageError::UnsupportedVersion(view_header(pages[0]).version))
    } else {
        Ok(view_header(pages[0]))
    }
}

/// What reading the footer that `header` points to out of `pages` gives.
pub open spec fn spec_read_footer(pages: Seq<Seq<u8>>, header: NexoraHeader) -> Result<NexoraFooter, NexoraStorageError> {
    let fid = header.footer_page_id;
    if fid >= pages.len() {
        Err(NexoraStorageError::UnexpectedEof(fid))
    } else if !checksum_ok(pages[fid as int]) {
        Err(NexoraStorageError::ChecksumMismatch(fid))
    } else {
        Ok(view_footer(pages[fid as int]))
    }
}

/// The header written into a page that joins the free list in front of `next`.
pub open spec fn free_page_header(page_id: u64, next: u64) -> NexoraPageHeader {
    NexoraPageHeader {
        page_id,
        next_page_id: next,
        prev_page_id: SENTINEL_PAGE_ID,
        checksum: 0,
        page_type: page_type_code(PageType::Free),
    }
}

/// The bytes of a freed page.
pub open spec fn free_page_bytes(page_id: u64, next: u64) -> Seq<u8> {
    put_page_header(Seq::new(PAGE_SIZE as nat, |i: int| 0u8), free_page_header(page_id, next))
}

/// What allocating a page does to a file: the page it hands out, or the
/// error, and the footer afterwards.
pub open spec fn spec_allocate(pages: Seq<Seq<u8>>, f: NexoraFooter) -> (Result<PageId, NexoraStorageError>, NexoraFooter) {
    let first = f.first_free_page;
    if first != SENTINEL_PAGE_ID {
        if first >= pages.len() {
            (Err(NexoraStorageError::UnexpectedEof(first)), f)
        } else {
            (
                Ok(PageId(first)),
                NexoraFooter {
                    first_free_page: view_page_header(pages[first as int]).next_page_id,
                    free_pages_count: (f.free_pages_count - 1) as u64,
                    ..f
                },
            )
        }
    } else {
        (Ok(PageId(f.page_count)), NexoraFooter { page_count: (f.page_count + 1) as u64, ..f })
    }
}

/// Two footers agree on the node and edge counters.
pub open spec fn same_graph_counters(a: NexoraFooter, b: NexoraFooter) -> bool {
    &&& a.next_node_id == b.next_node_id
    &&& a.node_count == b.node_count
    &&& a.next_edge_id == b.next_edge_id
    &&& a.edge_count == b.edge_count
}

impl PageStore {
    /// A new file: the initial header in page 0 and the initial footer in
    /// page 1, both with their checksums stamped.
    pub fn create() -> (r: PageStore)
        ensures
            r.inv(),
            r@ == seq![
                stamped(NexoraHeader::initial_page_spec()),
                stamped(footer_page_bytes(NexoraFooter::spec_initial())),
            ],
    {
        let mut store = PageStore::new();
        let header = NexoraHeader::initial();
        let hp = header.to_page();
        store.write_page(PageId(0), hp.as_slice(), true);
        let footer = NexoraFooter::initial();
        let fp = footer.to_page();
        store.write_page(PageId(1), fp.as_slice(), true);
        assert(store@ =~= seq![
            stamped(NexoraHeader::initial_page_spec()),
            stamped(footer_page_bytes(NexoraFooter::spec_initial())),
        ]);
        store
    }
}

pub struct StorageManager {
    pub store: PageStore,
    pub header: NexoraHeader,
    pub footer: NexoraFooter,
    pub footer_dirty: bool,
}

impl StorageManager {
    /// Whether the footer in memory differs from the one on the pages.
    pub open spec fn is_footer_dirty(&self) -> bool {
        self.footer_dirty
    }

    pub open spec fn inv(&self) -> bool {
        self.store.inv()
    }

    /// Room for `n` more page allocations without a counter running over:
    /// the free list count covers `n` pops, and the page count `n` appends.
    pub open spec fn can_allocate(&self, n: int) -> bool {
        &&& (self.footer.first_free_page != SENTINEL_PAGE_ID ==> self.footer.free_pages_count >= n)
        &&& self.footer.page_count + n <= u64::MAX
    }

    fn read_header(store: &PageStore) -> (r: Result<NexoraHeader, NexoraStorageError>)
        requires
            store.inv(),
        ensures
            r == spec_read_header(store@),
    {
        let mut buf = zero_page();
        store.read_page(PageId(0), &mut buf, true)?;
        let header = NexoraHeader::read_from(buf.as_slice());
        if header.magic != NEXORA_MAGIC {
            return Err(NexoraStorageError::InvalidMagicBytes);
        }
        if header.version != SUPPORTED_VERSION {
            return Err(NexoraStorageError::UnsupportedVersion(header.version));
        }
        Ok(header)
    }

    fn read_footer(store: &PageStore, header: &NexoraHeader) -> (r: Result<NexoraFooter, NexoraStorageError>)
        requires
            store.inv(),
        ensures
            r == spec_read_footer(store@, *header),
    {
        let footer_page_id = PageId(header.footer_page_id);
        let mut buf = zero_page();
        store.read_page(footer_page_id, &mut buf, true)?;
        Ok(NexoraFooter::read_from(buf.as_slice()))
    }

    pub fn new(store: PageStore, header: NexoraHeader, footer: NexoraFooter) -> (r: Self)
        ensures
            r.store == store,
            r.header == header,
            r.footer == footer,
            !r.is_footer_dirty(),
    {
        StorageManager { store, header, footer, footer_dirty: false }
    }

    /// Opens the file held by `store`: reads and checks the header, then the
    /// footer it points to.
    pub fn from_page_store(store: PageStore) -> (r: Result<Self, NexoraStorageError>)
        requires
            store.inv(),
        ensures
            match r {
                Ok(m) => {
                    &&& spec_read_header(store@) is Ok
                    &&& m.header == spec_read_header(store@)->Ok_0
                    &&& spec_read_footer(store@, m.header) == Ok::<NexoraFooter, NexoraStorageError>(m.footer)
                    &&& m.store == store
                    &&& !m.is_footer_dirty()
                },
                Err(e) => match spec_read_header(store@) {
                    Err(he) => e == he,
                    Ok(h) => spec_read_footer(store@, h) == Err::<NexoraFooter, NexoraStorageError>(e),
                },
            },
    {
        let header = Self::read_header(&store)?;
        let footer = Self::read_footer(&store, &header)?;
        Ok(StorageManager { store, header, footer, footer_dirty: false })
    }

    /// Gives back the pages, for the caller to persist or reopen.
    pub fn into_store(self) -> (r: PageStore)
        ensures
            r == self.store,
    {
        self.store
    }

    pub fn mark_footer_dirty(&mut self)
        ensures
            final(self).store == old(self).store,
            final(self).header == old(self).header,
            final(self).footer == old(self).footer,
            final(self).is_footer_dirty(),
    {
        self.footer_dirty = true;
    }

    /// Writes the footer back to its page when it changed since it was last
    /// written.
    pub fn close(&mut self) -> (r: Result<(), NexoraStorageError>)
        requires
            old(self).inv(),
        ensures
            r == Ok::<(), NexoraStorageError>(()),
            final(self).inv(),
            final(self).header == old(self).header,
            final(self).footer == old(self).footer,
            !final(self).is_footer_dirty(),
            final(self).store@ == if old(self).is_footer_dirty() {
                pages_after_write(
                    old(self).store@,
                    old(self).header.footer_page_id as int,
                    stamped(footer_page_bytes(old(self).footer)),
                )
            } else {
                old(self).store@
            },
    {
        if !self.footer_dirty {
            return Ok(());
        }
        let footer_bytes = self.footer.to_page();
        self.store.write_page(PageId(self.header.footer_page_id), footer_bytes.as_slice(), true)?;
        self.footer_dirty = false;
        Ok(())
    }

    /// Takes the first page of the free list, or appends a page when the
    /// free list is empty.
    pub fn allocate_page(&mut self) -> (r: Result<PageId, NexoraStorageError>)
        requires
            old(self).inv(),
            old(self).can_allocate(1),
        ensures
            final(self).inv(),
            final(self).store == old(self).store,
            final(self).header == old(self).header,
            r == spec_allocate(old(self).store@, old(self).footer).0,
            final(self).footer == spec_allocate(old(self).store@, old(self).footer).1,
            final(self).is_footer_dirty() == (old(self).is_footer_dirty() || r is Ok),
            r is Ok ==> r->Ok_0.0 != SENTINEL_PAGE_ID,
            forall|n: int| 1 <= n && #[trigger] old(self).can_allocate(n) ==> final(self).can_allocate(n - 1),
    {
        if self.footer.first_free_page != SENTINEL_PAGE_ID {
            let page_id = PageId(self.footer.first_free_page);
            let page_header = self.store.read_page_header_unchecked(page_id)?;
            let next_free = page_header.next_page_id;
            self.footer.first_free_page = next_free;
            self.footer.free_pages_count = self.footer.free_pages_count - 1;
            self.footer_dirty = true;
            Ok(page_id)
        } else {
            let page_id = PageId(self.footer.page_count);
            self.footer.page_count = self.footer.page_count + 1;
            self.footer_dirty = true;
            Ok(page_id)
        }
    }

    /// Puts `page_id` at the front of the free list.
    pub fn free_page(&mut self, page_id: PageId) -> (r: Result<(), NexoraStorageError>)
        requires
            old(self).inv(),
            old(self).footer.free_pages_count < u64::MAX,
        ensures
            r == Ok::<(), NexoraStorageError>(()),
            final(self).inv(),
            final(self).header == old(self).header,
            final(self).store@ == pages_after_write(
                old(self).store@,
                page_id.0 as int,
                free_page_bytes(page_id.0, old(self).footer.first_free_page),
            ),
            final(self).footer == (NexoraFooter {
                first_free_page: page_id.0,
                free_pages_count: (old(self).footer.free_pages_count + 1) as u64,
                ..old(self).footer
            }),
            final(self).is_footer_dirty(),
    {
        let mut buf = zero_page();
        let free_header = NexoraPageHeader {
            page_id: page_id.as_u64(),
            next_page_id: self.footer.first_free_page,
            prev_page_id: SENTINEL_PAGE_ID,
            checksum: 0,
            page_type: PageType::Free.to_u8(),
        };
        proof { assert(buf@ =~= Seq::new(PAGE_SIZE as nat, |i: int| 0u8)); }
        free_header.write_to(&mut buf);
        self.store.write_page(page_id, buf.as_slice(), false)?;
        self.footer.first_free_page = page_id.as_u64();
        self.footer.free_pages_count = self.footer.free_pages_count + 1;
        self.footer_dirty = true;
        Ok(())
    }
}

/// A footer with the checksum field of its page header set aside.
pub open spec fn footer_contents(f: NexoraFooter) -> NexoraFooter {
    NexoraFooter { page_header: NexoraPageHeader { checksum: 0, ..f.page_header }, ..f }
}

/// What a manager writes when it closes with a changed footer is what the
/// file reads back when opened again: the same header, and the same footer
/// but for the checksum its page now carries.
pub proof fn lemma_close_then_reopen(pages: Seq<Seq<u8>>, header: NexoraHeader, footer: NexoraFooter)
    requires
        spec_read_header(pages) == Ok::<NexoraHeader, NexoraStorageError>(header),
        header.footer_page_id != 0,
    ensures
        ({
            let p2 = pages_after_write(pages, header.footer_page_id as int, stamped(footer_page_bytes(footer)));
            &&& spec_read_header(p2) == Ok::<NexoraHeader, NexoraStorageError>(header)
            &&& spec_read_footer(p2, header) is Ok
            &&& footer_contents(spec_read_footer(p2, header)->Ok_0) == footer_contents(footer)
        }),
{
    broadcast use group_codec;

    let b = footer_page_bytes(footer);
    assert(b.len() == PAGE_SIZE);
    lemma_stamped_checksum_ok(b);
    let p2 = pages_after_write(pages, header.footer_page_id as int, stamped(b));
    assert(p2[0] == pages[0]);
    assert(p2[header.footer_page_id as int] == stamped(b));
    lemma_footer_roundtrip(footer);
    let c = crc32_of(checksum_input(b));
    assert(stamped(b) == put_u32(b, 24, c));
    assert(view_footer(stamped(b)) == NexoraFooter {
        page_header: NexoraPageHeader { checksum: c, ..view_footer(b).page_header },
        ..view_footer(b)
    });
}

/// A footer page reads back as the footer written into it.
pub proof fn lemma_footer_roundtrip(f: NexoraFooter)
    ensures
        view_footer(footer_page_bytes(f)) == f,
        footer_page_bytes(f).len() == PAGE_SIZE,
{
    broadcast use group_codec;

    let z = Seq::new(PAGE_SIZE as nat, |i: int| 0u8);
    lemma_put_page_header(z, f.page_header);
    let s0 = put_page_header(z, f.page_header);
    assert(view_page_header(s0) == f.page_header);
}

} // verus!
