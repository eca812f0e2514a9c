[package]
name = "flowistry-cli"
version = "0.1.0"
edition = "2021"
publish = false

[dependencies]
anyhow = "=1.0.104"
clap = { version = "=4.6.7", features = ["derive"] }
serde = { version = "=1.0.229", features = ["derive"] }
serde_json = "=1.0.154"
flowistry = "=0.5.44"
rustc_plugin = "=0.14.2-nightly-2025-08-20"
rustc_utils = "=0.14.2-nightly-2025-08-20"
