[package]
name = "partition"
version = "0.1.0"
edition = "2021"
publish = false

[dependencies]
csv = "1"
lru = "*"
regex = "1"
