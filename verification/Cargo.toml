[package]
name = "ocid-core"
version = "0.1.0"
edition = "2021"
publish = false

[dependencies]
anyhow = "=1.0.104"
blake3 = "=1.8.7"
bs58 = "=0.5.1"
clap = { version = "=4.6.7", features = ["derive", "env"] }
comfy-table = "=7.2.2"
dirs = "=5.0.1"
hex = "=0.4.3"
iroh-base = { version = "=1.4.1", features = ["key"] }
reqwest = { version = "=0.12.28", default-features = false, features = ["json"] }
serde = { version = "=1.0.229", features = ["derive"] }
serde_json = "=1.0.154"
sha2 = "=0.10.9"
tokio = { version = "=1.54.1", features = ["rt-multi-thread", "macros"] }
toml = "=0.8.23"
uuid = { version = "=1.29.0", features = ["v4"] }
