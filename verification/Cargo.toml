[package]
name = "zb"
version = "0.1.0"
edition = "2021"
publish = false

[dependencies]
clap = { version = "=4.6.7", features = ["derive"] }
colored = "=3.1.1"
nix = { version = "=0.31.3", features = ["feature", "process", "ptrace", "signal"] }
signal-hook = "=0.3.18"
tracing = "=0.1.44"
tracing-subscriber = "=0.3.23"
