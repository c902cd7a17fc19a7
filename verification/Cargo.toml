[package]
name = "lab4"
version = "0.1.0"
edition = "2021"
publish = false

[dependencies]
ipc-channel = "*"
nix = { version = "*", features = ["process"] }
shared_memory = "*"
