[package]
name = "proctrace"
version = "0.1.0"
edition = "2021"
publish = false

[dependencies]
anyhow = "*"
clap = { version = "*", features = ["derive"] }
nix = "*"
regex-lite = "*"
serde = { version = "*", features = ["derive"] }
serde_json = "*"
signal-hook = "*"
