[package]
name = "psn"
version = "0.1.0"
edition = "2021"
publish = false

[dependencies]
anyhow = "1"
crossterm = "0.28"
nix = { version = "0.29", features = ["signal"] }
ratatui = "0.29"
regex = "1"
sysinfo = "0.33"
users = "0.11"
