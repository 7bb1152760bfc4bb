[package]
name = "ostore"
version = "0.1.0"
edition = "2021"
publish = false

[dependencies]
serde = { version = "1", features = ["derive"] }
serde_json = "1"
clap = "2"
chrono = "0.4"
dirs = "5"
toml = "0.8"
csv = "1"
regex = "1"
walkdir = "2"
