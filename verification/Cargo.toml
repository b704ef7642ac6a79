[package]
name = "kv"
version = "0.1.0"
edition = "2021"

[dependencies]
twox-hash = "1.6"
libc = "0.2"
rand = "0.8"
