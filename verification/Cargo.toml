[package]
name = "turbo_gc_hmr"
version = "0.1.0"
edition = "2021"
publish = false

[dependencies]
anyhow = "1"
bincode = { version = "2.0.1", features = ["derive"] }
parking_lot = "0.12"
rustc-hash = "2"
tracing = "0.1"
turbo-rcstr = "0.1.0"
turbo-tasks-hash = "0.1.0"
