[package]
name = "anna_ivanovna"
version = "0.1.0"
edition = "2021"
publish = false

[dependencies]
chrono = "0.4"
clap = { version = "4", features = ["derive"] }
crossterm = "*"
dirs = "*"
ratatui = "*"
serde = { version = "1", features = ["derive"] }
serde_json = "1"
serde_yaml = "0.9"
