[package]
name = "uni"
version = "0.1.0"
edition = "2021"
publish = false

[dependencies]
shlex = "1"
clap = { version = "4", features = ["derive"] }
serde = { version = "1", features = ["derive"] }
serde_yaml = "0.9"
signal-hook = "0.3"
nix = { version = "*", features = ["signal"] }
