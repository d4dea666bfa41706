[package]
name = "nix-zed-extensions"
version = "0.1.0"
edition = "2021"
publish = false

[dependencies]
anyhow = "1"
futures-util = "0.3"
serde = { version = "1", features = ["derive"] }
serde_json = "1"
smol = "2"
smol-macros = "0.1"
toml = "*"
tracing = "0.1"
tracing-subscriber = "0.3"
