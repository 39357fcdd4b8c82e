[package]
name = "pianoterm"
version = "0.1.0"
edition = "2021"
publish = false

[dependencies]
byteorder = "1"
clap = "2"
midir = "*"
nix = { version = "*", features = ["signal"] }
rustbox = "*"
