[package]
name = "random_word"
version = "0.1.0"
edition = "2021"
publish = false

[dependencies]
ahash = "*"
brotli = "*"
once_cell = "*"
rand = "*"
