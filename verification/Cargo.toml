[package]
name = "snooze"
version = "0.1.0"
edition = "2021"
publish = false

[dependencies]
argh = "*"
crossbeam-channel = "*"
crossterm = "*"
nix = { version = "*", features = ["term", "process"] }
signal-hook = "*"
time = { version = "*", features = ["local-offset"] }
