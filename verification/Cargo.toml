[package]
name = "selector4nix"
version = "0.1.0"
edition = "2021"
publish = false

[dependencies]
anyhow = "1"
async-trait = "0.1"
bytes = "1"
futures = "0.3"
http = "1"
reqwest = { version = "0.12", default-features = false }
tokio = { version = "1", features = ["rt", "time"] }
tracing = "0.1"
