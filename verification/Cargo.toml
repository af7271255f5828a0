[package]
name = "caloud"
version = "0.1.0"
edition = "2021"
publish = false

[dependencies]
anyhow = "*"
lexopt = "*"
nix = { version = "=0.29.0", features = ["fs", "ioctl", "poll", "process", "signal", "term"] }
shell-words = "*"
unicode-width = "*"
