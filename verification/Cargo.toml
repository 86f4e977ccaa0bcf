[package]
name = "cargo_buckal"
version = "0.1.0"
edition = "2021"
publish = false

[dependencies]
anyhow = "1"
cargo_metadata = "*"
clap = { version = "4", features = ["derive"] }
hex = "0.4"
include_dir = "0.7"
regex = "1"
serde = { version = "1", features = ["derive"] }
serde_json = "1"
starlark_syntax = "*"
toml = "*"
url = "2"
