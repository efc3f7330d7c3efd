[package]
name = "callgraph"
version = "0.1.0"
edition = "2021"
publish = false

[dependencies]
cargo_metadata = "*"
syn = { version = "*", features = ["full", "visit"] }
proc-macro2 = { version = "*", features = ["span-locations"] }
