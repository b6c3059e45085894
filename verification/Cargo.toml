[package]
name = "lucid_dreamer"
version = "0.1.0"
edition = "2021"
publish = false

[dependencies]
anyhow = "*"
chrono = "*"
clap = { version = "*", features = ["derive"] }
crossterm = "*"
rand = "*"
serde = { version = "*", features = ["derive"] }
serde_json = "*"
