[package]
name = "cargo-ff"
version = "0.1.0"
edition = "2021"
publish = false

[dependencies]
anstyle = "=1.0.14"
anyhow = "1"
cargo_metadata = "=0.23.1"
clap = { version = "4", features = ["derive"] }
crossbeam-channel = "0.5"
thiserror = "2"
walkdir = "2"
