use vstd::prelude::*;

verus! {

pub const PROPERTY_HEADER_SIZE: usize = 32;
pub const PROPERTY_RECORD_SIZE: usize = 32;
/// log2 of `PROPERTY_RECORD_SIZE`.
pub const PROPERTY_RECORD_SHIFT: usize = 5;
/// (PAGE_SIZE - PAGE_HEADER_SIZE - PROPERTY_HEADER_SIZE) / PROPERTY_RECORD_SIZE
pub const MAX_PROPERTY_RECORD_COUNT: usize = 126;
/// Where the first property record starts in a property page.
pub const PROPERTY_RECORDS_OFFSET: usize = 64;

} // verus!
