[package]
name = "coordinator"
version = "0.1.0"
edition = "2021"
publish = false

[dependencies]
uuid = { version = "1", features = ["v4"] }
anyhow = "1"
tokio = { version = "1", features = ["rt-multi-thread", "macros", "sync"] }
tonic = "0.10"
tracing = "0.1"
tracing-subscriber = "0.3"
prometheus = { version = "0.13", default-features = false }
lazy_static = "1"
warp = { version = "0.3", default-features = false }
serde_json = "1"
