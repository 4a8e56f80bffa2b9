[package]
name = "cargo_lock_align"
version = "0.1.0"
edition = "2021"

[dependencies]
anyhow = "1"
cargo_metadata = "*"
clap = { version = "4", features = ["derive"] }
semver = "1"
toml = "*"
