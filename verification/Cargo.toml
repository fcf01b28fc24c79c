[package]
name = "client_server"
version = "0.1.0"
edition = "2021"
publish = false

[dependencies]
libc = "*"
nix = { version = "*", features = ["socket", "signal", "process"] }

[dev-dependencies]
serde_json = "*"
