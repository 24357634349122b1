[package]
name = "mdbook_git_info"
version = "0.1.0"
edition = "2021"
publish = false

[dependencies]
anyhow = "1"
chrono = { version = "0.4", default-features = false, features = ["std"] }
clap = "2"
mdbook = { version = "0.4", default-features = false }
serde_json = "1"
