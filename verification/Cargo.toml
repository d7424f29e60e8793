[package]
name = "rostl"
version = "0.1.0"
edition = "2021"
publish = false

[dependencies]
rand = "0.9"
ahash = "0.8"
kanal = "0.1"
libc = "0.2"
