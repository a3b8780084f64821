[package]
name = "repo2txt"
version = "0.1.0"
edition = "2021"
publish = false

[dependencies]
globset = "0.4"
walkdir = "2"
clap = { version = "4", features = ["derive"] }
serde = { version = "1", features = ["derive"] }
serde_json = "1"
