[package]
name = "tdmcli"
version = "1.0.0"
edition = "2021"
publish = false

[dependencies]
base64 = "0.22"
dirs = "5"
globset = "0.4"
indicatif = "0.17"
rayon = "1"
reqwest = { version = "0.12", features = ["blocking"] }
walkdir = "2"
