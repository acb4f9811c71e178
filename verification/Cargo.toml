[package]
name = "spdk_rs"
version = "0.1.0"
edition = "2021"
publish = false

[dependencies]
bindgen = "=0.59.2"
