pub mod codec;
pub mod containers;
