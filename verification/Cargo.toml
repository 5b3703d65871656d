[package]
name = "multi_buffer"
version = "0.1.0"
edition = "2021"
publish = false

[dependencies]
anyhow = "1"
futures = "0.3"
itertools = "0.13"
log = "0.4"
rand = "0.8"
serde = { version = "1", features = ["derive"] }
smallvec = "1"
tree-sitter = "0.23"
