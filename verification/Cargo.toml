[package]
name = "xraft"
version = "0.1.0"
edition = "2021"
publish = false

[dependencies]
anyhow = "1"
async-trait = "0.1"
fnv = "1"
futures = "0.3"
futures-util = "0.3"
rand = "0.7"
serde = { version = "1", features = ["derive"] }
smallvec = "1"
thiserror = "1"
tokio = { version = "1", features = ["rt", "rt-multi-thread", "time", "sync", "macros"] }
tracing = "0.1"
