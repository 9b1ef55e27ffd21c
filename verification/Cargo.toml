[package]
name = "tiny_fs"
version = "0.1.0"
edition = "2021"
publish = false

[dependencies]
clap = "*"

[dev-dependencies]
rand = "*"
