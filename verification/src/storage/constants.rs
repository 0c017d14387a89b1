use vstd::prelude::*;

verus! {

pub const PAGE_SIZE: usize = 4096;
pub const PAGE_SIZE_SHIFT: u32 = 12;

pub const PAGE_HEADER_SIZE: usize = 32;

/// File format versions this library reads.
pub const SUPPORTED_VERSION: u32 = 1;

/// Marks the end of every page chain.
pub const SENTINEL_PAGE_ID: u64 = 0xffff_ffff_ffff_ffff;

} // verus!
