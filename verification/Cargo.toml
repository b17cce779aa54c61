[package]
name = "foyer-storage"
version = "0.1.0"
edition = "2021"
publish = false

[dependencies]
anyhow = "1"
bitmaps = "3"
bytes = "1"
futures = "0.3"
itertools = "0.12"
lz4 = "1"
parking_lot = { version = "0.12", features = ["arc_lock"] }
tokio = { version = "1", features = ["rt", "rt-multi-thread", "sync", "time"] }
tracing = "0.1"
twox-hash = "1"
zstd = "0.13"
