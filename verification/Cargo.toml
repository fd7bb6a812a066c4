[package]
name = "workmux"
version = "0.1.0"
edition = "2021"
publish = false

[dependencies]
anyhow = "1"
nix = { version = "0.30", features = ["fs", "dir"] }
serde_json = "1"
tracing = "0.1"
