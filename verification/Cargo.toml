[package]
name = "rudis"
version = "0.1.0"
edition = "2021"
publish = false

[dependencies]
resp = "*"
lazy_static = "1.4"
