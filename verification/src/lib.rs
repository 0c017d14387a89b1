pub mod utils;
pub mod storage;
pub mod graph;
pub mod index;
pub mod api;
