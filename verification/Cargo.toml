[package]
name = "policy_engine"
version = "0.1.0"
edition = "2021"
publish = false

[dependencies]
anyhow = "1"
arc-swap = "1"
bincode = { version = "2", features = ["serde"] }
clang-sys = { version = "1", features = ["clang_10_0", "runtime"] }
dashmap = "6"
postcard = { version = "1", features = ["use-std"] }
rustc-hash = "2"
serde = { version = "1", features = ["derive"] }
smallvec = "1"
tracing = "0.1"
tree-sitter = "0.25"
tree-sitter-cpp = "0.23"
