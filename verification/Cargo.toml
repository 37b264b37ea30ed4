[package]
name = "embsim_board"
version = "0.1.0"
edition = "2021"
publish = false

[dependencies]
libc = "0.2"
nix = { version = "0.30", features = ["fs", "term"] }
tracing = "0.1"
