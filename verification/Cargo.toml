[package]
name = "include_utils"
version = "0.1.0"
edition = "2021"
publish = false

[dependencies]
cargo_metadata = "*"
manyhow = "*"
proc-macro2 = "*"
quote = "*"
syn = "*"
