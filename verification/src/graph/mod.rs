pub mod record;
pub mod node;
pub mod string;
pub mod label;
pub mod edge;
pub mod property;
pub mod models;
pub mod graphstore;
