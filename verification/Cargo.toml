[package]
name = "rust_memory_check"
version = "0.1.0"
edition = "2021"
publish = false

[dependencies]
itertools = "0.10"
termcolor = "1"
colored = "2"
log = "0.4"
log4rs = "1"
serde_json = "1"
cargo_metadata = "0.15"
