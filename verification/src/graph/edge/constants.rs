use vstd::prelude::*;

verus! {

pub const EDGE_PAGE_HEADER_SIZE: usize = 16;
pub const EDGE_RECORD_SIZE: usize = 64;
/// (PAGE_SIZE - PAGE_HEADER_SIZE - EDGE_PAGE_HEADER_SIZE) / EDGE_RECORD_SIZE
pub const MAX_EDGE_RECORD_COUNT: usize = 63;
/// Where the first edge record starts in an edge page.
pub const EDGE_RECORDS_OFFSET: usize = 48;

} // verus!
