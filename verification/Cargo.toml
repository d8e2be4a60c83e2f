[package]
name = "rs_1brc"
version = "0.1.0"
edition = "2021"
publish = false

[dependencies]
memchr = "*"
fast-float = "*"
rustc-hash = "*"
crossbeam-channel = "*"
clap = { version = "*", features = ["derive"] }
