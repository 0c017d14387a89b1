pub mod constants;
pub mod error;
pub mod page;
pub mod graph_string_store;
