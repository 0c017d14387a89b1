use vstd::prelude::*;

verus! {

pub const STRING_PAGE_HEADER_SIZE: usize = 64;
pub const STRING_PAGE_SLOT_SIZE: usize = 16;
pub const STRING_PAGE_SLOT_SHIFT: u32 = 4;

pub const MAX_STRING_LENGTH: usize = 65535;
/// PAGE_SIZE - PAGE_HEADER_SIZE - STRING_PAGE_HEADER_SIZE - STRING_PAGE_SLOT_SIZE
pub const MAX_STRING_CHUNK_SIZE: usize = 3984;

/// Size of the area of a string page that holds slots and string bytes.
pub const STRING_PAGE_BUFFER_SIZE: usize = 4000;
/// Where that area starts in the page.
pub const STRING_PAGE_BUFFER_OFFSET: usize = 96;

} // verus!
