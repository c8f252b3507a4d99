[package]
name = "rust_labs"
version = "0.1.0"
edition = "2021"
publish = false

[dependencies]
regex = "1"
itertools = "*"
num = "0.4"
walkdir = "2"
