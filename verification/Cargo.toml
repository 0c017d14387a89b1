[package]
name = "nexora"
version = "0.1.0"
edition = "2021"
publish = false

[dependencies]
crc32fast = "1"
thiserror = "2"
zerocopy = { version = "0.8", features = ["derive"] }
clap = { version = "4", features = ["derive"] }
