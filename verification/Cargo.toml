[package]
name = "crev_repo"
version = "0.1.0"
edition = "2021"
publish = false

[dependencies]
anyhow = "1"
app_dirs = "1"
cargo = "0.50"
cargo-platform = "0.1"
petgraph = "0.5"
semver = "0.10"
tempdir = "0.3"
