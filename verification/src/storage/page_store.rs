//! Pages in memory, with the checksum that every stored page carries.
//!
//! A `PageStore` holds the pages of one Nexora file. Reading a page copies it
//! out and may check its CRC-32; writing a page may stamp the CRC-32 into the
//! header first. Writing past the last page grows the store with zero pages,
//! as writing past the end of a file does.
use vstd::prelude::*;
use vstd::slice::slice_to_vec;

use crate::utils::codec::{group_codec, read_u32, put_u32, get_u32, set_u32};
use crate::storage::constants::{PAGE_HEADER_SIZE, PAGE_SIZE, SENTINEL_PAGE_ID};
use crate::storage::error::NexoraStorageError;
use crate::storage::models::{NexoraFooter, NexoraPageHeader, PageId, view_page_header, zero_page};

verus! {

broadcast use group_codec;

pub const CHECKSUM_OFFSET: usize = 24;
pub const CHECKSUM_LEN: usize = 4;

/// The CRC-32 (IEEE) of a byte sequence, as crc32fast computes it.
pub uninterp spec fn crc32_of(data: Seq<u8>) -> u32;

/// Calls `crc32fast::hash`, which returns the CRC-32 (IEEE) of the bytes it is
/// given; the contract names that value and says nothing more of it.
#[verifier::external_body]
pub(crate) fn crc32(data: &[u8]) -> (r: u32)
    ensures
        r == crc32_of(data@),
{
    crc32fast::hash(data)
}

/// The bytes the checksum of a page is computed over: the page with its
/// checksum field set to zero.
pub open spec fn checksum_input(page: Seq<u8>) -> Seq<u8> {
    put_u32(page, CHECKSUM_OFFSET as int, 0)
}

/// The checksum stored in a page's header.
pub open spec fn stored_checksum(page: Seq<u8>) -> u32 {
    read_u32(page, CHECKSUM_OFFSET as int)
}

pub open spec fn checksum_ok(page: Seq<u8>) -> bool {
    stored_checksum(page) == crc32_of(checksum_input(page))
}

/// The page with its checksum stamped into the header.
pub open spec fn stamped(page: Seq<u8>) -> Seq<u8> {
    put_u32(page, CHECKSUM_OFFSET as int, crc32_of(checksum_input(page)))
}

pub open spec fn zero_bytes() -> Seq<u8> {
    Seq::new(PAGE_SIZE as nat, |i: int| 0u8)
}

/// The pages after `data` is written as page `pid`: a page inside the store is
/// replaced, one past its end is appended after zero pages that fill the gap.
pub open spec fn pages_after_write(pages: Seq<Seq<u8>>, pid: int, data: Seq<u8>) -> Seq<Seq<u8>> {
    if pid < pages.len() {
        pages.update(pid, data)
    } else {
        pages + Seq::new((pid - pages.len()) as nat, |i: int| zero_bytes()) + seq![data]
    }
}

/// The page that follows page `pid` in its chain.
pub open spec fn next_in_chain(pages: Seq<Seq<u8>>, pid: u64) -> u64 {
    view_page_header(pages[pid as int]).next_page_id
}

/// Whether the chain from `pid` reaches its end within `fuel` pages, each of
/// them a page of the store.
pub open spec fn chain_ends(pages: Seq<Seq<u8>>, pid: u64, fuel: nat) -> bool
    decreases fuel,
{
    pid == SENTINEL_PAGE_ID || (fuel > 0 && pid < pages.len() && chain_ends(pages, next_in_chain(pages, pid), (fuel - 1) as nat))
}

/// Whether page `q` is among the first `fuel` pages of the chain from `pid`.
pub open spec fn on_chain(pages: Seq<Seq<u8>>, pid: u64, q: u64, fuel: nat) -> bool
    decreases fuel,
{
    fuel > 0 && pid != SENTINEL_PAGE_ID && pid < pages.len()
        && (pid == q || on_chain(pages, next_in_chain(pages, pid), q, (fuel - 1) as nat))
}

/// A page on a chain is a page of the store.
pub proof fn lemma_on_chain_in_store(pages: Seq<Seq<u8>>, pid: u64, q: u64, fuel: nat)
    requires
        on_chain(pages, pid, q, fuel),
    ensures
        q < pages.len(),
        q != SENTINEL_PAGE_ID,
    decreases fuel,
{
    if pid != q {
        lemma_on_chain_in_store(pages, next_in_chain(pages, pid), q, (fuel - 1) as nat);
    }
}

/// A chain that ends within `k` pages ends within any more.
pub proof fn lemma_chain_ends_more(pages: Seq<Seq<u8>>, pid: u64, k: nat, m: nat)
    requires
        chain_ends(pages, pid, k),
        k <= m,
    ensures
        chain_ends(pages, pid, m),
    decreases k,
{
    if pid != SENTINEL_PAGE_ID {
        lemma_chain_ends_more(pages, next_in_chain(pages, pid), (k - 1) as nat, (m - 1) as nat);
    }
}

/// On a chain that ends, the page after a page of the chain is the end or
/// again a page of the chain.
pub proof fn lemma_chain_step(pages: Seq<Seq<u8>>, pid: u64, x: u64, fuel: nat)
    requires
        chain_ends(pages, pid, fuel),
        on_chain(pages, pid, x, fuel),
    ensures
        next_in_chain(pages, x) == SENTINEL_PAGE_ID || on_chain(pages, pid, next_in_chain(pages, x), fuel),
    decreases fuel,
{
    let y = next_in_chain(pages, pid);
    assert(chain_ends(pages, y, (fuel - 1) as nat));
    if pid != x {
        lemma_chain_step(pages, y, x, (fuel - 1) as nat);
    } else if y != SENTINEL_PAGE_ID {
        assert(on_chain(pages, y, y, (fuel - 1) as nat));
    }
}

/// A chain whose pages are the same in two stores ends in both, and has the
/// same pages in both.
pub proof fn lemma_chain_same_pages(pages: Seq<Seq<u8>>, p2: Seq<Seq<u8>>, pid: u64, fuel: nat)
    requires
        chain_ends(pages, pid, fuel),
        pages.len() <= p2.len(),
        forall|q: u64| #[trigger] on_chain(pages, pid, q, fuel) ==> q < pages.len() && p2[q as int] == pages[q as int],
    ensures
        chain_ends(p2, pid, fuel),
        forall|q: u64| on_chain(p2, pid, q, fuel) == #[trigger] on_chain(pages, pid, q, fuel),
    decreases fuel,
{
    if pid != SENTINEL_PAGE_ID {
        assert(on_chain(pages, pid, pid, fuel));
        let y = next_in_chain(pages, pid);
        assert forall|q: u64| #[trigger] on_chain(pages, y, q, (fuel - 1) as nat) implies q < pages.len() && p2[q as int] == pages[q as int] by {
            assert(on_chain(pages, pid, q, fuel));
        }
        lemma_chain_same_pages(pages, p2, y, (fuel - 1) as nat);
        assert(next_in_chain(p2, pid) == y);
        assert forall|q: u64| on_chain(p2, pid, q, fuel) == #[trigger] on_chain(pages, pid, q, fuel) by {
            assert(on_chain(p2, y, q, (fuel - 1) as nat) == on_chain(pages, y, q, (fuel - 1) as nat));
        }
    }
}

/// A chain that ends and keeps its links in a second store has the same
/// pages there.
pub proof fn lemma_chain_same_links(pages: Seq<Seq<u8>>, p2: Seq<Seq<u8>>, pid: u64, fuel: nat)
    requires
        chain_ends(pages, pid, fuel),
        forall|q: u64| #[trigger] on_chain(pages, pid, q, fuel)
            ==> q < p2.len() && next_in_chain(p2, q) == next_in_chain(pages, q),
    ensures
        chain_ends(p2, pid, fuel),
        forall|q: u64| on_chain(p2, pid, q, fuel) == #[trigger] on_chain(pages, pid, q, fuel),
    decreases fuel,
{
    if pid != SENTINEL_PAGE_ID {
        assert(on_chain(pages, pid, pid, fuel));
        let y = next_in_chain(pages, pid);
        assert forall|q: u64| #[trigger] on_chain(pages, y, q, (fuel - 1) as nat)
            implies q < p2.len() && next_in_chain(p2, q) == next_in_chain(pages, q) by {
            assert(on_chain(pages, pid, q, fuel));
        }
        lemma_chain_same_links(pages, p2, y, (fuel - 1) as nat);
        assert forall|q: u64| on_chain(p2, pid, q, fuel) == #[trigger] on_chain(pages, pid, q, fuel) by {
            assert(on_chain(p2, y, q, (fuel - 1) as nat) == on_chain(pages, y, q, (fuel - 1) as nat));
        }
    }
}

/// On a chain that ends within `k` pages, a page found with any fuel is
/// found within `k`.
pub proof fn lemma_on_chain_within(pages: Seq<Seq<u8>>, pid: u64, q: u64, k: nat, m: nat)
    requires
        chain_ends(pages, pid, k),
        on_chain(pages, pid, q, m),
    ensures
        on_chain(pages, pid, q, k),
    decreases m,
{
    if pid != q {
        lemma_on_chain_within(pages, next_in_chain(pages, pid), q, (k - 1) as nat, (m - 1) as nat);
    }
}

/// Whether page `q` is on the free list of the store, among as many pages
/// as the footer counts free.
pub open spec fn free_page(pages: Seq<Seq<u8>>, f: NexoraFooter, q: u64) -> bool {
    on_chain(pages, f.first_free_page, q, f.free_pages_count as nat)
}

/// A page on a chain that ends starts a chain that ends as well.
pub proof fn lemma_chain_ends_from(pages: Seq<Seq<u8>>, y: u64, x: u64, k: nat, m: nat)
    requires
        chain_ends(pages, y, k),
        on_chain(pages, y, x, m),
    ensures
        chain_ends(pages, x, k),
    decreases m,
{
    if y != x {
        lemma_chain_ends_from(pages, next_in_chain(pages, y), x, (k - 1) as nat, (m - 1) as nat);
        lemma_chain_ends_more(pages, x, (k - 1) as nat, k);
    }
}

/// A chain that ends never comes back to a page it has left.
pub proof fn lemma_chain_no_return(pages: Seq<Seq<u8>>, x: u64, k: nat, m: nat)
    requires
        chain_ends(pages, x, k),
        x != SENTINEL_PAGE_ID,
    ensures
        !on_chain(pages, next_in_chain(pages, x), x, m),
    decreases k,
{
    if on_chain(pages, next_in_chain(pages, x), x, m) {
        lemma_chain_ends_from(pages, next_in_chain(pages, x), x, (k - 1) as nat, m);
        lemma_chain_no_return(pages, x, (k - 1) as nat, m);
    }
}

/// Taking the first page off a chain that ends leaves a chain that ends one
/// page sooner, holds only pages of the old chain, and not the page taken.
pub proof fn lemma_chain_pop(pages: Seq<Seq<u8>>, h: u64, c: nat)
    requires
        chain_ends(pages, h, c),
        h != SENTINEL_PAGE_ID,
    ensures
        c > 0,
        h < pages.len(),
        on_chain(pages, h, h, c),
        chain_ends(pages, next_in_chain(pages, h), (c - 1) as nat),
        !on_chain(pages, next_in_chain(pages, h), h, (c - 1) as nat),
        forall|q: u64| #[trigger] on_chain(pages, next_in_chain(pages, h), q, (c - 1) as nat) ==> on_chain(pages, h, q, c),
{
    lemma_chain_no_return(pages, h, c, (c - 1) as nat);
}

/// What reading page `pid` gives: its bytes, or why it cannot be read.
pub open spec fn spec_read_page(pages: Seq<Seq<u8>>, pid: u64, verify: bool) -> Result<Seq<u8>, NexoraStorageError> {
    if pid >= pages.len() {
        Err(NexoraStorageError::UnexpectedEof(pid))
    } else if verify && !checksum_ok(pages[pid as int]) {
        Err(NexoraStorageError::ChecksumMismatch(pid))
    } else {
        Ok(pages[pid as int])
    }
}

/// Stamping and then checking a page always succeeds, and stamping changes
/// only the checksum field.
pub proof fn lemma_stamped_checksum_ok(page: Seq<u8>)
    requires
        PAGE_HEADER_SIZE <= page.len(),
    ensures
        checksum_ok(stamped(page)),
        stamped(page).len() == page.len(),
        checksum_input(stamped(page)) == checksum_input(page),
        forall|i: int|
            0 <= i < page.len() && !(CHECKSUM_OFFSET <= i < CHECKSUM_OFFSET + CHECKSUM_LEN)
                ==> #[trigger] stamped(page)[i] == page[i],
{
    assert(checksum_input(stamped(page)) =~= checksum_input(page));
}

pub struct PageStore {
    pages: Vec<Vec<u8>>,
}

impl View for PageStore {
    type V = Seq<Seq<u8>>;

    closed spec fn view(&self) -> Seq<Seq<u8>> {
        Seq::new(self.pages@.len(), |i: int| self.pages@[i]@)
    }
}

impl PageStore {
    /// Every page holds exactly `PAGE_SIZE` bytes.
    pub open spec fn inv(&self) -> bool {
        forall|i: int| 0 <= i < self@.len() ==> #[trigger] self@[i].len() == PAGE_SIZE
    }

    pub fn get_checksum(buf: &[u8]) -> (r: u32)
        requires
            PAGE_HEADER_SIZE <= buf@.len(),
        ensures
            r == stored_checksum(buf@),
    {
        get_u32(buf, CHECKSUM_OFFSET)
    }

    /// Whether `stored` is the checksum of the page.
    pub fn verify_checksum(buf: &[u8], stored: u32) -> (r: bool)
        requires
            PAGE_HEADER_SIZE <= buf@.len(),
        ensures
            r == (stored == crc32_of(checksum_input(buf@))),
    {
        let mut copy = slice_to_vec(buf);
        set_u32(&mut copy, CHECKSUM_OFFSET, 0);
        crc32(copy.as_slice()) == stored
    }

    pub fn stamp_checksum(buf: &mut Vec<u8>)
        requires
            PAGE_HEADER_SIZE <= old(buf)@.len(),
        ensures
            final(buf)@ == stamped(old(buf)@),
    {
        set_u32(buf, CHECKSUM_OFFSET, 0);
        let checksum = crc32(buf.as_slice());
        set_u32(buf, CHECKSUM_OFFSET, checksum);
        proof {
            assert(put_u32(put_u32(old(buf)@, 24, 0), 24, checksum) =~= stamped(old(buf)@));
        }
    }

    /// An empty store.
    pub fn new() -> (r: Self)
        ensures
            r@ == Seq::<Seq<u8>>::empty(),
            r.inv(),
    {
        let r = PageStore { pages: Vec::new() };
        assert(r@ =~= Seq::<Seq<u8>>::empty());
        r
    }

    /// The pages of a file image, in order; a partial page at the end is
    /// not a page and is left out.
    pub fn from_bytes(data: &[u8]) -> (r: Self)
        ensures
            r.inv(),
            r@.len() == data@.len() as int / (PAGE_SIZE as int),
            forall|i: int| 0 <= i < r@.len() ==> #[trigger] r@[i] == data@.subrange(
                i * PAGE_SIZE,
                (i + 1) * PAGE_SIZE,
            ),
    {
        let dlen = data.len();
        let n = dlen / PAGE_SIZE;
        let mut pages: Vec<Vec<u8>> = Vec::new();
        let mut i: usize = 0;
        while i < n
            invariant
                n == data@.len() as int / (PAGE_SIZE as int),
                dlen == data@.len(),
                i <= n,
                pages@.len() == i,
                forall|j: int| 0 <= j < i ==> #[trigger] pages@[j]@ == data@.subrange(
                    j * PAGE_SIZE,
                    (j + 1) * PAGE_SIZE,
                ),
            decreases n - i,
        {
            assert((i + 1) * PAGE_SIZE <= data@.len()) by (nonlinear_arith)
                requires
                    i < n,
                    n == data@.len() / 4096,
                    PAGE_SIZE == 4096,
            ;
            let page = slice_to_vec(vstd::slice::slice_subrange(data, i * PAGE_SIZE, (i + 1) * PAGE_SIZE));
            pages.push(page);
            i = i + 1;
        }
        let r = PageStore { pages };
        r
    }

    pub fn page_count(&self) -> (r: usize)
        ensures
            r == self@.len(),
    {
        self.pages.len()
    }

    /// The bytes of page `i`.
    pub fn page_bytes(&self, i: usize) -> (r: &[u8])
        requires
            i < self@.len(),
        ensures
            r@ == self@[i as int],
    {
        self.pages[i].as_slice()
    }

    /// Copies page `page_id` into `buf`. With `verify_checksum` the stored
    /// checksum is checked against the page contents.
    pub fn read_page(&self, page_id: PageId, buf: &mut Vec<u8>, verify_checksum: bool) -> (r: Result<(), NexoraStorageError>)
        requires
            self.inv(),
        ensures
            page_id.0 < self@.len() ==> final(buf)@ == self@[page_id.0 as int],
            page_id.0 >= self@.len() ==> final(buf)@ == old(buf)@,
            r is Ok == spec_read_page(self@, page_id.0, verify_checksum) is Ok,
            r is Ok ==> final(buf)@ == spec_read_page(self@, page_id.0, verify_checksum)->Ok_0,
            r is Err ==> r->Err_0 == spec_read_page(self@, page_id.0, verify_checksum)->Err_0,
            r == (if page_id.0 >= self@.len() {
                Err(NexoraStorageError::UnexpectedEof(page_id.0))
            } else if verify_checksum && !checksum_ok(self@[page_id.0 as int]) {
                Err(NexoraStorageError::ChecksumMismatch(page_id.0))
            } else {
                Ok(())
            }),
    {
        if page_id.0 >= self.pages.len() as u64 {
            return Err(NexoraStorageError::UnexpectedEof(page_id.0));
        }
        let i = page_id.0 as usize;
        assert(self@[i as int].len() == PAGE_SIZE);
        *buf = slice_to_vec(self.pages[i].as_slice());
        let stored = Self::get_checksum(buf.as_slice());
        if verify_checksum && !Self::verify_checksum(buf.as_slice(), stored) {
            return Err(NexoraStorageError::ChecksumMismatch(page_id.0));
        }
        Ok(())
    }

    /// Stores `buf` as page `page_id`, with its checksum stamped when
    /// `stamp_checksum` holds.
    pub fn write_page(&mut self, page_id: PageId, buf: &[u8], stamp_checksum: bool) -> (r: Result<(), NexoraStorageError>)
        requires
            old(self).inv(),
            buf@.len() == PAGE_SIZE,
        ensures
            r == Ok::<(), NexoraStorageError>(()),
            final(self).inv(),
            final(self)@ == pages_after_write(
                old(self)@,
                page_id.0 as int,
                if stamp_checksum { stamped(buf@) } else { buf@ },
            ),
    {
        let mut page = slice_to_vec(buf);
        if stamp_checksum {
            Self::stamp_checksum(&mut page);
        }
        proof { lemma_stamped_checksum_ok(buf@); }
        if page_id.0 < self.pages.len() as u64 {
            let i = page_id.0 as usize;
            self.pages[i] = page;
            proof {
                assert(self@ =~= old(self)@.update(i as int, page@));
            }
        } else {
            while (self.pages.len() as u64) < page_id.0
                invariant
                    old(self)@.len() <= self@.len() <= page_id.0,
                    self.inv(),
                    self@ =~= old(self)@ + Seq::new((self@.len() - old(self)@.len()) as nat, |i: int| zero_bytes()),
                decreases page_id.0 - self@.len(),
            {
                let z = zero_page();
                proof { assert(z@ =~= zero_bytes()); }
                let ghost before = self@;
                self.pages.push(z);
                proof {
                    assert(self@ =~= before.push(z@));
                }
            }
            self.pages.push(page);
            proof {
                assert(self@ =~= pages_after_write(
                    old(self)@,
                    page_id.0 as int,
                    if stamp_checksum { stamped(buf@) } else { buf@ },
                ));
            }
        }
        Ok(())
    }

    /// Reads the header of page `page_id` without checking its checksum.
    pub fn read_page_header_unchecked(&self, page_id: PageId) -> (r: Result<NexoraPageHeader, NexoraStorageError>)
        requires
            self.inv(),
        ensures
            r == (if page_id.0 >= self@.len() {
                Err(NexoraStorageError::UnexpectedEof(page_id.0))
            } else {
                Ok(view_page_header(self@[page_id.0 as int]))
            }),
    {
        if page_id.0 >= self.pages.len() as u64 {
            return Err(NexoraStorageError::UnexpectedEof(page_id.0));
        }
        let i = page_id.0 as usize;
        assert(self@[i as int].len() == PAGE_SIZE);
        Ok(NexoraPageHeader::read_from(self.pages[i].as_slice()))
    }
}

} // verus!
