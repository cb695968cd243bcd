[package]
name = "pantry"
version = "0.1.0"
edition = "2021"
publish = false

[dependencies]
arboard = "3"
clap = { version = "4", features = ["derive"] }
crossterm = "0.28"
dirs = "5"
fuzzy-matcher = "0.3"
ratatui = "0.29"
serde = { version = "1", features = ["derive"] }
toml = "0.8"
