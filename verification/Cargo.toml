[package]
name = "txtar"
version = "0.1.0"
edition = "2021"
publish = false

[dependencies]
path-clean = "0.1"
