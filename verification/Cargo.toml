[package]
name = "minipacked"
version = "0.1.0"
edition = "2021"
publish = false

[dependencies]
anyhow = "1"
argon2 = "0.5"
chacha20poly1305 = { version = "0.10", features = ["stream"] }
indicatif = "0.17"
rand = "0.8"
rpassword = "7"
tar = "0.4"
walkdir = "2"
zstd = "0.13"
