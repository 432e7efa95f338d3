[package]
name = "patcho"
version = "0.1.0"
edition = "2021"
publish = false

[dependencies]
typed-builder = "=0.20.1"
