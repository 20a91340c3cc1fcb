[package]
name = "ash"
version = "0.1.0"
edition = "2021"
publish = false

[dependencies]
clap = "*"
configparser = "*"
nix = { version = "*", features = ["user"] }
rustix = "*"
tempfile = "*"
users = "*"
