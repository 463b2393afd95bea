[package]
name = "hadar"
version = "0.1.0"
edition = "2021"
publish = false

[dependencies]
crc32fast = "1"
redb = "*"
tokio = { version = "1", features = ["rt-multi-thread", "sync", "signal", "macros"] }
anyhow = "1"
thiserror = "*"
tracing = "0.1"
tracing-subscriber = { version = "0.3", features = ["env-filter", "fmt"] }
