[package]
name = "map8x32"
version = "0.1.0"
edition = "2021"
publish = false

[dependencies]
dashmap = "6"
tokio = { version = "1", features = ["rt", "rt-multi-thread", "macros", "net", "io-util", "sync", "fs", "time"] }
