pub mod constants;
pub mod error;
pub mod page;
pub mod graph_property_store;
