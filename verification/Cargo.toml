[package]
name = "loadtimer"
version = "0.1.0"
edition = "2021"
publish = false

[dependencies]
anyhow = "*"
argh = "*"
nix = { version = "*", features = ["feature"] }
prettytable-rs = "*"
