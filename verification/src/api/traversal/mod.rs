pub mod api;
pub mod traversal;
