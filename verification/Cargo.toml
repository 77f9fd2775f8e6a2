[package]
name = "mumbling"
version = "0.1.0"
edition = "2021"
publish = false

[dependencies]
rand = "0.8"
rand_chacha = "0.3"
roaring = "0.10"
zstd = "0.13"
