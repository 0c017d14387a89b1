pub mod error;
pub mod graphstore;
