[package]
name = "imap-rs"
version = "0.1.0"
edition = "2021"
publish = false

[dependencies]
tokio = { version = "1", features = ["rt-multi-thread", "macros", "net", "io-util", "sync", "time"] }
async-trait = "0.1"
rustls = { version = "0.23", default-features = false, features = ["std"] }
tokio-rustls = { version = "0.26", default-features = false }
tracing = "0.1"
