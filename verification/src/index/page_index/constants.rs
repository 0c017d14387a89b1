use vstd::prelude::*;

verus! {

pub const PAGE_INDEX_HEADER_SIZE: usize = 8;
pub const NODE_PAGE_INDEX_RECORD_SIZE: usize = 8;
/// (PAGE_SIZE - PAGE_HEADER_SIZE - PAGE_INDEX_HEADER_SIZE) / NODE_PAGE_INDEX_RECORD_SIZE
pub const MAX_NODE_PAGE_INDEX_RECORD_COUNT: usize = 507;
/// Where the first record starts in a directory page.
pub const INDEX_RECORDS_OFFSET: usize = 40;

} // verus!
