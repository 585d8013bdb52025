[package]
name = "cuts_core"
version = "0.1.0"
edition = "2021"
publish = false

[dependencies]
argon2 = "0.5"
chacha20poly1305 = "0.10"
blake3 = "1"
lz4 = "1"
rand = "0.9"
rpassword = "7"
walkdir = "2"
zeroize = "1"
