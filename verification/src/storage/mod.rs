pub mod constants;
pub mod error;
pub mod models;
pub mod page_store;
pub mod storage_manager;
pub mod wal;
