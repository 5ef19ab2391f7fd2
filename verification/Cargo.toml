[package]
name = "lsm_engine"
version = "0.1.0"
edition = "2021"
publish = false

[dependencies]
crc32fast = "1"
crossbeam-skiplist = "0.1"
fastbloom = "*"
thiserror = "2"
tokio = { version = "1", features = ["rt-multi-thread", "sync"] }
