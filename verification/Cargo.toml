[package]
name = "rz"
version = "0.1.0"
edition = "2021"
publish = false

[dependencies]
anyhow = "1"
chrono = "0.4"
getrandom = "0.3"
hostname = "0.4"
nix = { version = "0.30", features = ["process", "signal"] }
regex = "1"
serde = { version = "1", features = ["derive"] }
serde_json = "1"
signal-hook = "0.3"
terminal_size = "0.4"
