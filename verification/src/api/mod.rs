pub mod traversal;
