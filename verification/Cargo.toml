[package]
name = "meritrank"
version = "0.1.0"
edition = "2021"
publish = false

[dependencies]
rand = "=0.8.8"
indexmap = "=2.14.2"
tinyset = "*"
