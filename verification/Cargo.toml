[package]
name = "qaraoke"
version = "0.1.0"
edition = "2021"
publish = false

[dependencies]
byteorder = "1"
lz4 = "1"
rand = "0.8"
