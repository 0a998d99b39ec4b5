[package]
name = "kctf_pow"
version = "0.1.0"
edition = "2021"
publish = false

[dependencies]
base64 = "=0.23.1"
rand = "=0.10.3"
