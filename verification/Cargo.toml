[package]
name = "cortex"
version = "0.2.0"
edition = "2021"
publish = false

[dependencies]
regex = "1"
chrono = "0.4"
uuid = { version = "1", features = ["v4"] }
sha2 = "0.10"
hex = "0.4"
serde = { version = "1", features = ["derive"] }
serde_json = "1"
tokio = { version = "1", features = ["sync", "fs", "rt", "macros", "time"] }
reqwest = { version = "0.12", default-features = false, features = ["json"] }
async-trait = "0.1"
anyhow = "1"
thiserror = "1"
