[package]
name = "git_descendants"
version = "0.1.0"
edition = "2021"
publish = false

[dependencies]
git2 = "*"
clap = "2"
chrono = "*"
colored = "*"
serde = { version = "*", features = ["derive"] }
serde_json = "*"
