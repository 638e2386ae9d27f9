[package]
name = "commitments"
version = "0.1.0"
edition = "2021"
publish = false

[dependencies]
hex = "0.4"
async-std = "1"
rocksdb = { version = "*", default-features = false }
thiserror = "1"
