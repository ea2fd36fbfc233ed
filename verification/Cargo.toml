[package]
name = "ciphers"
version = "0.1.0"
edition = "2021"
publish = false

[dependencies]
aes = "0.8"
bmp = "*"
rand = "0.8"
clap = { version = "4", features = ["derive"] }
