pub mod constants;
pub mod page;
pub mod node_page_index_store;
