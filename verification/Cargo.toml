[package]
name = "ballast"
version = "0.1.0"
edition = "2021"
publish = false

[dependencies]
color-eyre = "0.6"
nix = { version = "0.30", features = ["fs"] }
ratatui = "0.30"
