[package]
name = "clay"
version = "0.1.0"
edition = "2021"
publish = false

[dependencies]
sha1 = "0.10"
flate2 = "1"
tar = "0.4"
serde_json = "1"
serde = { version = "1", features = ["derive"] }
anyhow = "1"
tokio = { version = "1", features = ["rt-multi-thread", "macros", "fs", "sync", "io-util", "process"] }
reqwest = { version = "*", default-features = false, features = ["json"] }
dirs = "*"
toml = "*"
dashmap = "*"
