pub mod bitsets;
