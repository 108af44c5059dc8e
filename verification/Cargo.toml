[package]
name = "synco"
version = "0.1.0"
edition = "2021"
publish = false

[dependencies]
anymap = "0.12"
