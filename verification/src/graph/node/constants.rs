use vstd::prelude::*;

verus! {

pub const NODE_PAGE_HEADER_SIZE: usize = 4;
pub const NODE_RECORD_SIZE: usize = 40;
/// (PAGE_SIZE - PAGE_HEADER_SIZE - NODE_PAGE_HEADER_SIZE) / NODE_RECORD_SIZE
pub const MAX_RECORD_COUNT: usize = 101;
/// Where the first node record starts in a node page.
pub const NODE_RECORDS_OFFSET: usize = 36;

} // verus!
