[package]
name = "rats"
version = "0.1.0"
edition = "2021"
publish = false

[dependencies]
anyhow = "1"
nix = { version = "*", features = ["signal"] }
signal-hook = "0.3"
thiserror = "1"
