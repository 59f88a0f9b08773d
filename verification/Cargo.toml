[package]
name = "cosdata"
version = "0.1.0"
edition = "2021"
publish = false

[dependencies]
half = "*"
rand = "0.8"
