[package]
name = "infinite_auction"
version = "0.1.0"
edition = "2021"
publish = false

[dependencies]
rustorm = "*"
