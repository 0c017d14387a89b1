//! Identity of pages and the layout of the file header, the footer and the
//! header that starts every page.
use vstd::prelude::*;

use crate::utils::codec::{
    group_codec, read_u8, read_u32, read_u64, put_u8, put_u32, put_u64, get_u8, get_u32, get_u64,
    set_u8, set_u32, set_u64,
};
use crate::storage::constants::{PAGE_HEADER_SIZE, PAGE_SIZE, SENTINEL_PAGE_ID};

verus! {

broadcast use group_codec;

#[derive(Debug, Copy, Clone, PartialEq, Eq, Hash, Structural)]
pub struct PageId(pub u64);

impl PageId {
    pub fn as_u64(self) -> (r: u64)
        ensures
            r == self.0,
    {
        self.0
    }

    /// Byte position of the page in the file: the id times the page size,
    /// taken modulo 2^64 as the shift does.
    pub fn byte_offset(self) -> (r: u64)
        ensures
            r as int == (self.0 as int * PAGE_SIZE as int) % 0x1_0000_0000_0000_0000,
    {
        let x = self.0;
        assert(x << 12u64 == ((x as int * 4096) % 0x1_0000_0000_0000_0000) as u64) by (bit_vector);
        x << 12u64
    }
}

#[derive(Debug, Copy, Clone, PartialEq, Eq, Structural)]
pub enum PageType {
    Header,
    Footer,
    Node,
    Edge,
    Overflow,
    PageIndex,
    Label,
    Free,
    String,
    Property,
    LabelString,
}

/// The byte that stands for a page type on disk.
pub open spec fn page_type_code(t: PageType) -> u8 {
    match t {
        PageType::Header => 0,
        PageType::Footer => 1,
        PageType::Node => 2,
        PageType::Edge => 3,
        PageType::Overflow => 4,
        PageType::PageIndex => 5,
        PageType::Label => 6,
        PageType::Free => 7,
        PageType::String => 8,
        PageType::Property => 9,
        PageType::LabelString => 10,
    }
}

impl PageType {
    pub fn to_u8(&self) -> (r: u8)
        ensures
            r == page_type_code(*self),
    {
        match self {
            PageType::Header => 0,
            PageType::Footer => 1,
            PageType::Node => 2,
            PageType::Edge => 3,
            PageType::Overflow => 4,
            PageType::PageIndex => 5,
            PageType::Label => 6,
            PageType::Free => 7,
            PageType::String => 8,
            PageType::Property => 9,
            PageType::LabelString => 10,
        }
    }

    /// Decodes a page type byte; a byte that names no type comes back as the error.
    pub fn try_from(value: u8) -> (r: Result<PageType, u8>)
        ensures
            match r {
                Ok(t) => page_type_code(t) == value,
                Err(v) => v == value && value > 10,
            },
    {
        match value {
            0 => Ok(PageType::Header),
            1 => Ok(PageType::Footer),
            2 => Ok(PageType::Node),
            3 => Ok(PageType::Edge),
            4 => Ok(PageType::Overflow),
            5 => Ok(PageType::PageIndex),
            6 => Ok(PageType::Label),
            7 => Ok(PageType::Free),
            8 => Ok(PageType::String),
            9 => Ok(PageType::Property),
            10 => Ok(PageType::LabelString),
            unknown => Err(unknown),
        }
    }
}

/// Distinct page types have distinct codes.
pub proof fn lemma_page_type_code_injective(a: PageType, b: PageType)
    requires
        page_type_code(a) == page_type_code(b),
    ensures
        a == b,
{
}

/// The 32-byte header at the start of every page.
#[derive(Debug, Copy, Clone, PartialEq, Eq, Structural)]
pub struct NexoraPageHeader {
    pub page_id: u64,
    /// For the file header page this is always the footer page.
    pub next_page_id: u64,
    pub prev_page_id: u64,
    pub checksum: u32,
    pub page_type: u8,
}

pub open spec fn view_page_header(s: Seq<u8>) -> NexoraPageHeader {
    NexoraPageHeader {
        page_id: read_u64(s, 0),
        next_page_id: read_u64(s, 8),
        prev_page_id: read_u64(s, 16),
        checksum: read_u32(s, 24),
        page_type: read_u8(s, 28),
    }
}

pub open spec fn put_page_header(s: Seq<u8>, h: NexoraPageHeader) -> Seq<u8> {
    put_u8(
        put_u32(put_u64(put_u64(put_u64(s, 0, h.page_id), 8, h.next_page_id), 16, h.prev_page_id), 24, h.checksum),
        28,
        h.page_type,
    )
}

pub proof fn lemma_put_page_header(s: Seq<u8>, h: NexoraPageHeader)
    requires
        PAGE_HEADER_SIZE <= s.len(),
    ensures
        put_page_header(s, h).len() == s.len(),
        view_page_header(put_page_header(s, h)) == h,
        forall|i: int| PAGE_HEADER_SIZE <= i < s.len() ==> #[trigger] put_page_header(s, h)[i] == s[i],
{
}

impl NexoraPageHeader {
    pub fn init(page_id: u64) -> (r: Self)
        ensures
            r == (NexoraPageHeader {
                page_id,
                next_page_id: SENTINEL_PAGE_ID,
                prev_page_id: SENTINEL_PAGE_ID,
                checksum: 0,
                page_type: page_type_code(PageType::Header),
            }),
    {
        Self {
            page_id,
            next_page_id: SENTINEL_PAGE_ID,
            prev_page_id: SENTINEL_PAGE_ID,
            checksum: 0,
            page_type: PageType::Header.to_u8(),
        }
    }

    pub fn read_from(buf: &[u8]) -> (r: Self)
        requires
            PAGE_HEADER_SIZE <= buf@.len(),
        ensures
            r == view_page_header(buf@),
    {
        NexoraPageHeader {
            page_id: get_u64(buf, 0),
            next_page_id: get_u64(buf, 8),
            prev_page_id: get_u64(buf, 16),
            checksum: get_u32(buf, 24),
            page_type: get_u8(buf, 28),
        }
    }

    pub fn write_to(&self, buf: &mut Vec<u8>)
        requires
            PAGE_HEADER_SIZE <= old(buf)@.len(),
        ensures
            final(buf)@ == put_page_header(old(buf)@, *self),
            final(buf)@.len() == old(buf)@.len(),
            view_page_header(final(buf)@) == *self,
            forall|i: int| PAGE_HEADER_SIZE <= i < final(buf)@.len() ==> #[trigger] final(buf)@[i] == old(buf)@[i],
    {
        proof { lemma_put_page_header(buf@, *self); }
        set_u64(buf, 0, self.page_id);
        set_u64(buf, 8, self.next_page_id);
        set_u64(buf, 16, self.prev_page_id);
        set_u32(buf, 24, self.checksum);
        set_u8(buf, 28, self.page_type);
    }
}

/// `NXRA` read as a little-endian `u32`.
pub const NEXORA_MAGIC: u32 = 0x4152_584E;

/// Page 0: identity of the file.
#[derive(Debug, Copy, Clone, PartialEq, Eq, Structural)]
pub struct NexoraHeader {
    pub page_header: NexoraPageHeader,
    pub version: u32,
    pub page_size: u32,
    pub footer_page_id: u64,
    pub magic: u32,
}

pub open spec fn view_header(s: Seq<u8>) -> NexoraHeader {
    NexoraHeader {
        page_header: view_page_header(s),
        version: read_u32(s, 32),
        page_size: read_u32(s, 36),
        footer_page_id: read_u64(s, 40),
        magic: read_u32(s, 48),
    }
}

impl NexoraHeader {
    pub open spec fn spec_initial() -> NexoraHeader {
        NexoraHeader {
            page_header: NexoraPageHeader {
                page_id: 0,
                next_page_id: SENTINEL_PAGE_ID,
                prev_page_id: SENTINEL_PAGE_ID,
                checksum: 0,
                page_type: page_type_code(PageType::Header),
            },
            version: 1,
            page_size: PAGE_SIZE as u32,
            footer_page_id: 1,
            magic: NEXORA_MAGIC,
        }
    }

    /// The bytes of the page that holds the initial header.
    pub open spec fn initial_page_spec() -> Seq<u8> {
        header_page_bytes(Self::spec_initial())
    }

    /// The header a new file starts with.
    pub fn initial() -> (r: Self)
        ensures
            r == (NexoraHeader {
                page_header: NexoraPageHeader {
                    page_id: 0,
                    next_page_id: SENTINEL_PAGE_ID,
                    prev_page_id: SENTINEL_PAGE_ID,
                    checksum: 0,
                    page_type: page_type_code(PageType::Header),
                },
                version: 1,
                page_size: PAGE_SIZE as u32,
                footer_page_id: 1,
                magic: NEXORA_MAGIC,
            }),
    {
        NexoraHeader {
            page_header: NexoraPageHeader::init(0),
            version: 1,
            page_size: 4096,
            footer_page_id: 1,
            magic: NEXORA_MAGIC,
        }
    }

    pub fn read_from(buf: &[u8]) -> (r: Self)
        requires
            PAGE_SIZE <= buf@.len(),
        ensures
            r == view_header(buf@),
    {
        NexoraHeader {
            page_header: NexoraPageHeader::read_from(buf),
            version: get_u32(buf, 32),
            page_size: get_u32(buf, 36),
            footer_page_id: get_u64(buf, 40),
            magic: get_u32(buf, 48),
        }
    }

    pub fn write_to(&self, buf: &mut Vec<u8>)
        requires
            PAGE_SIZE <= old(buf)@.len(),
        ensures
            final(buf)@ == put_header(old(buf)@, *self),
            final(buf)@.len() == old(buf)@.len(),
            view_header(final(buf)@) == *self,
    {
        self.page_header.write_to(buf);
        set_u32(buf, 32, self.version);
        set_u32(buf, 36, self.page_size);
        set_u64(buf, 40, self.footer_page_id);
        set_u32(buf, 48, self.magic);
    }

    /// The header as the bytes of a page.
    pub fn to_page(&self) -> (r: Vec<u8>)
        ensures
            r@ == header_page_bytes(*self),
            r@.len() == PAGE_SIZE,
            view_header(r@) == *self,
    {
        let mut buf = zero_page();
        assert(buf@ =~= Seq::new(PAGE_SIZE as nat, |i: int| 0u8));
        self.write_to(&mut buf);
        buf
    }
}

/// A page of zero bytes.
pub fn zero_page() -> (r: Vec<u8>)
    ensures
        r@.len() == PAGE_SIZE,
        forall|i: int| 0 <= i < PAGE_SIZE ==> #[trigger] r@[i] == 0,
{
    let mut v: Vec<u8> = Vec::with_capacity(PAGE_SIZE);
    let mut i: usize = 0;
    while i < PAGE_SIZE
        invariant
            i <= PAGE_SIZE,
            v@.len() == i,
            forall|j: int| 0 <= j < i ==> #[trigger] v@[j] == 0,
        decreases PAGE_SIZE - i,
    {
        v.push(0u8);
        i = i + 1;
    }
    v
}

/// Page 1 (or wherever the header points): the state of the file.
#[derive(Debug, Copy, Clone, PartialEq, Eq, Structural)]
pub struct NexoraFooter {
    pub page_header: NexoraPageHeader,
    pub node_count: u64,
    pub first_node_page: u64,
    pub last_node_page: u64,
    pub next_node_id: u64,
    pub edge_count: u64,
    pub first_edge_page: u64,
    pub last_edge_page: u64,
    pub next_edge_id: u64,
    pub overflow_elements_count: u64,
    pub first_overflow_element_page: u64,
    pub page_indices_count: u64,
    pub first_page_index_page: u64,
    pub free_pages_count: u64,
    pub first_free_page: u64,
    pub first_string_page: u64,
    pub last_string_page: u64,
    pub label_pages_count: u64,
    pub first_label_page: u64,
    pub first_label_string_page: u64,
    pub first_property_page: u64,
    pub page_count: u64,
}

pub open spec fn view_footer(s: Seq<u8>) -> NexoraFooter {
    NexoraFooter {
        page_header: view_page_header(s),
        node_count: read_u64(s, 32),
        first_node_page: read_u64(s, 40),
        last_node_page: read_u64(s, 48),
        next_node_id: read_u64(s, 56),
        edge_count: read_u64(s, 64),
        first_edge_page: read_u64(s, 72),
        last_edge_page: read_u64(s, 80),
        next_edge_id: read_u64(s, 88),
        overflow_elements_count: read_u64(s, 96),
        first_overflow_element_page: read_u64(s, 104),
        page_indices_count: read_u64(s, 112),
        first_page_index_page: read_u64(s, 120),
        free_pages_count: read_u64(s, 128),
        first_free_page: read_u64(s, 136),
        first_string_page: read_u64(s, 144),
        last_string_page: read_u64(s, 152),
        label_pages_count: read_u64(s, 160),
        first_label_page: read_u64(s, 168),
        first_label_string_page: read_u64(s, 176),
        first_property_page: read_u64(s, 184),
        page_count: read_u64(s, 192),
    }
}

/// `s` with footer `f` written over it.
pub open spec fn put_footer(s: Seq<u8>, f: NexoraFooter) -> Seq<u8> {
    put_u64(put_u64(put_u64(put_u64(put_u64(put_u64(put_u64(put_u64(put_u64(put_u64(put_u64(put_u64(
    put_u64(put_u64(put_u64(put_u64(put_u64(put_u64(put_u64(put_u64(put_u64(
        put_page_header(s, f.page_header),
        32, f.node_count), 40, f.first_node_page), 48, f.last_node_page), 56, f.next_node_id),
        64, f.edge_count), 72, f.first_edge_page), 80, f.last_edge_page), 88, f.next_edge_id),
        96, f.overflow_elements_count), 104, f.first_overflow_element_page),
        112, f.page_indices_count), 120, f.first_page_index_page), 128, f.free_pages_count),
        136, f.first_free_page), 144, f.first_string_page), 152, f.last_string_page),
        160, f.label_pages_count), 168, f.first_label_page), 176, f.first_label_string_page),
        184, f.first_property_page), 192, f.page_count)
}

/// The bytes of the page that holds footer `f`.
pub open spec fn footer_page_bytes(f: NexoraFooter) -> Seq<u8> {
    put_footer(Seq::new(PAGE_SIZE as nat, |i: int| 0u8), f)
}

/// `s` with header `h` written over it.
pub open spec fn put_header(s: Seq<u8>, h: NexoraHeader) -> Seq<u8> {
    put_u32(put_u64(put_u32(put_u32(put_page_header(s, h.page_header), 32, h.version), 36, h.page_size), 40, h.footer_page_id), 48, h.magic)
}

/// The bytes of the page that holds header `h`.
pub open spec fn header_page_bytes(h: NexoraHeader) -> Seq<u8> {
    put_header(Seq::new(PAGE_SIZE as nat, |i: int| 0u8), h)
}

impl NexoraFooter {
    /// The footer a new file starts with: every chain empty, pages 0 and 1 in use.
    pub open spec fn spec_initial() -> NexoraFooter {
        NexoraFooter {
            page_header: NexoraPageHeader {
                page_id: 1,
                next_page_id: SENTINEL_PAGE_ID,
                prev_page_id: SENTINEL_PAGE_ID,
                checksum: 0,
                page_type: page_type_code(PageType::Footer),
            },
            node_count: 0,
            first_node_page: SENTINEL_PAGE_ID,
            last_node_page: SENTINEL_PAGE_ID,
            next_node_id: 0,
            edge_count: 0,
            first_edge_page: SENTINEL_PAGE_ID,
            last_edge_page: SENTINEL_PAGE_ID,
            next_edge_id: 0,
            overflow_elements_count: 0,
            first_overflow_element_page: SENTINEL_PAGE_ID,
            page_indices_count: 0,
            first_page_index_page: SENTINEL_PAGE_ID,
            free_pages_count: 0,
            first_free_page: SENTINEL_PAGE_ID,
            first_string_page: SENTINEL_PAGE_ID,
            last_string_page: SENTINEL_PAGE_ID,
            label_pages_count: 0,
            first_label_page: SENTINEL_PAGE_ID,
            first_label_string_page: SENTINEL_PAGE_ID,
            first_property_page: SENTINEL_PAGE_ID,
            page_count: 2,
        }
    }

    pub fn initial() -> (r: Self)
        ensures
            r == Self::spec_initial(),
    {
        NexoraFooter {
            page_header: NexoraPageHeader {
                page_id: 1,
                next_page_id: SENTINEL_PAGE_ID,
                prev_page_id: SENTINEL_PAGE_ID,
                checksum: 0,
                page_type: PageType::Footer.to_u8(),
            },
            node_count: 0,
            first_node_page: SENTINEL_PAGE_ID,
            last_node_page: SENTINEL_PAGE_ID,
            next_node_id: 0,
            edge_count: 0,
            first_edge_page: SENTINEL_PAGE_ID,
            last_edge_page: SENTINEL_PAGE_ID,
            next_edge_id: 0,
            overflow_elements_count: 0,
            first_overflow_element_page: SENTINEL_PAGE_ID,
            page_indices_count: 0,
            first_page_index_page: SENTINEL_PAGE_ID,
            free_pages_count: 0,
            first_free_page: SENTINEL_PAGE_ID,
            first_string_page: SENTINEL_PAGE_ID,
            last_string_page: SENTINEL_PAGE_ID,
            label_pages_count: 0,
            first_label_page: SENTINEL_PAGE_ID,
            first_label_string_page: SENTINEL_PAGE_ID,
            first_property_page: SENTINEL_PAGE_ID,
            page_count: 2,
        }
    }

    pub fn read_from(buf: &[u8]) -> (r: Self)
        requires
            PAGE_SIZE <= buf@.len(),
        ensures
            r == view_footer(buf@),
    {
        NexoraFooter {
            page_header: NexoraPageHeader::read_from(buf),
            node_count: get_u64(buf, 32),
            first_node_page: get_u64(buf, 40),
            last_node_page: get_u64(buf, 48),
            next_node_id: get_u64(buf, 56),
            edge_count: get_u64(buf, 64),
            first_edge_page: get_u64(buf, 72),
            last_edge_page: get_u64(buf, 80),
            next_edge_id: get_u64(buf, 88),
            overflow_elements_count: get_u64(buf, 96),
            first_overflow_element_page: get_u64(buf, 104),
            page_indices_count: get_u64(buf, 112),
            first_page_index_page: get_u64(buf, 120),
            free_pages_count: get_u64(buf, 128),
            first_free_page: get_u64(buf, 136),
            first_string_page: get_u64(buf, 144),
            last_string_page: get_u64(buf, 152),
            label_pages_count: get_u64(buf, 160),
            first_label_page: get_u64(buf, 168),
            first_label_string_page: get_u64(buf, 176),
            first_property_page: get_u64(buf, 184),
            page_count: get_u64(buf, 192),
        }
    }

    #[verifier::rlimit(50)]
    pub fn write_to(&self, buf: &mut Vec<u8>)
        requires
            PAGE_SIZE <= old(buf)@.len(),
        ensures
            final(buf)@ == put_footer(old(buf)@, *self),
            final(buf)@.len() == old(buf)@.len(),
            view_footer(final(buf)@) == *self,
    {
        self.page_header.write_to(buf);
        set_u64(buf, 32, self.node_count);
        set_u64(buf, 40, self.first_node_page);
        set_u64(buf, 48, self.last_node_page);
        set_u64(buf, 56, self.next_node_id);
        set_u64(buf, 64, self.edge_count);
        set_u64(buf, 72, self.first_edge_page);
        set_u64(buf, 80, self.last_edge_page);
        set_u64(buf, 88, self.next_edge_id);
        set_u64(buf, 96, self.overflow_elements_count);
        set_u64(buf, 104, self.first_overflow_element_page);
        set_u64(buf, 112, self.page_indices_count);
        set_u64(buf, 120, self.first_page_index_page);
        set_u64(buf, 128, self.free_pages_count);
        set_u64(buf, 136, self.first_free_page);
        set_u64(buf, 144, self.first_string_page);
        set_u64(buf, 152, self.last_string_page);
        set_u64(buf, 160, self.label_pages_count);
        set_u64(buf, 168, self.first_label_page);
        set_u64(buf, 176, self.first_label_string_page);
        set_u64(buf, 184, self.first_property_page);
        set_u64(buf, 192, self.page_count);
    }

    /// The footer as the bytes of a page.
    pub fn to_page(&self) -> (r: Vec<u8>)
        ensures
            r@ == footer_page_bytes(*self),
            r@.len() == PAGE_SIZE,
            view_footer(r@) == *self,
    {
        let mut buf = zero_page();
        assert(buf@ =~= Seq::new(PAGE_SIZE as nat, |i: int| 0u8));
        self.write_to(&mut buf);
        buf
    }
}

} // verus!
