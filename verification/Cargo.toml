[package]
name = "ymir"
version = "0.1.0"
edition = "2021"
publish = false

[dependencies]
anyhow = "1"
chrono = "0.4"
dirs = "*"
getopts = "0.2"
git2 = "*"
log = "0.4"
ratatui = "*"
serde = { version = "1", features = ["derive"] }
simplelog = "*"
tokei = "*"
toml = "*"
walkdir = "2"
