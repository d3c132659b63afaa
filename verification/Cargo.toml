[package]
name = "dupes"
version = "0.1.0"
edition = "2021"
publish = false

[dependencies]
clap = "*"
libc = "*"
regex = "*"
serde = "*"
serde_json = "*"
sha2 = "*"
walkdir = "*"
