[package]
name = "bittorrent"
version = "0.1.0"
edition = "2021"
publish = false

[dependencies]
maplit = "1"
sha-1 = "0.8"
