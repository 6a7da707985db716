[package]
name = "btclib"
version = "0.1.0"
edition = "2021"
publish = false

[dependencies]
sha256 = { version = "*", default-features = false }
hex = "*"
k256 = { version = "*", features = ["ecdsa"] }
rand = "*"
uuid = { version = "*", features = ["v4"] }
chrono = "*"
anyhow = "*"
argh = "*"
dashmap = "*"
tokio = { version = "*", features = ["rt-multi-thread", "net", "macros", "time", "sync", "io-util"] }
