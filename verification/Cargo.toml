[package]
name = "torrent_engine"
version = "0.1.0"
edition = "2021"
publish = false

[dependencies]
sha1 = "=0.11.0"
anyhow = "=1.0.104"
parking_lot = "=0.12.5"
tokio = { version = "=1.53.2", features = ["rt", "rt-multi-thread", "time", "macros"] }
reqwest = { version = "=0.13.5", default-features = false }
