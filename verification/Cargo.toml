[package]
name = "rap"
version = "0.1.0"
edition = "2021"
publish = false

[dependencies]
serde_json = "1"
cargo_metadata = "0.18"
wait-timeout = "0.2"
walkdir = "2"
log = "0.4"
fern = { version = "0.6", features = ["colored"] }
chrono = "0.4"
annotate-snippets = "0.11"
rustc_version = "0.4"
