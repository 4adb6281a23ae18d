[package]
name = "diag_engine"
version = "0.1.0"
edition = "2021"
publish = false

[dependencies]
anyhow = "1"
num-bigint = "0.4"
ocptv = "*"
serde = { version = "1", features = ["derive"] }
thiserror = "1"
tokio = { version = "1", features = ["fs", "io-util", "macros", "rt-multi-thread", "sync", "time"] }
