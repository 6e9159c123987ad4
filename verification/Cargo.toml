[package]
name = "ouroboros"
version = "0.1.0"
edition = "2021"
publish = false

[dependencies]
sha2 = "*"
similar = "*"
chrono = "*"
serde = { version = "*", features = ["derive"] }
serde_json = "*"
tokio = { version = "*", features = ["rt-multi-thread", "macros", "fs", "sync"] }
