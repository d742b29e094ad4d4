[package]
name = "skills_lint"
version = "0.1.0"
edition = "2021"
publish = false

[dependencies]
regex = "1"
serde = { version = "1", features = ["derive"] }
serde_yaml = "0.9"
serde_json = "1"
walkdir = "2"
clap = { version = "4", features = ["derive"] }
toml = "0.8"
