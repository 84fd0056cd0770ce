[package]
name = "picshuffle"
version = "0.1.0"
edition = "2021"
publish = false

[dependencies]
rust-crypto = "0.2"
kamadak-exif = "*"
chrono = "*"
clap = "2"
ignore = "*"
