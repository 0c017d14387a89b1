use vstd::prelude::*;

verus! {

pub const LABEL_PAGE_HEADER_SIZE: usize = 8;
pub const LABEL_RECORD_SIZE: usize = 16;
/// (PAGE_SIZE - PAGE_HEADER_SIZE - LABEL_PAGE_HEADER_SIZE) / LABEL_RECORD_SIZE
pub const MAX_PAGE_LABEL_COUNT: u16 = 253;
/// Where the first label record starts in a label page.
pub const LABEL_RECORDS_OFFSET: usize = 40;

} // verus!
