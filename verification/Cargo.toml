[package]
name = "cakemaster"
version = "0.1.0"
edition = "2021"
publish = false

[dependencies]
offset-allocator = "*"
scc = "*"
crossbeam-queue = "*"
parking_lot = "*"
arc-swap = "*"
regex = "*"
logforth = { version = "*", features = ["filter-rustlog", "append-async", "append-file", "bridge-log", "layout-text"] }
log = { version = "*", features = ["kv"] }
clap = { version = "*", features = ["derive"] }
thiserror = "*"
tokio = { version = "*", features = ["rt-multi-thread", "net", "io-util", "sync", "macros", "time", "signal"] }
mimalloc = "*"
