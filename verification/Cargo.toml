[package]
name = "fzd"
version = "0.1.0"
edition = "2021"
publish = false

[dependencies]
anyhow = "1"
clap = { version = "4", features = ["derive"] }
crossterm = "0.28"
dirs = "5"
flate2 = "1"
fuzzy-matcher = "0.3"
ratatui = "0.29"
self-replace = "1"
serde = { version = "1", features = ["derive"] }
serde_json = "1"
tar = "0.4"
ureq = "2"
zip = { version = "2", default-features = false, features = ["deflate"] }
