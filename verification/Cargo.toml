[package]
name = "chess_core"
version = "0.1.0"
edition = "2021"
publish = false

[dependencies]
bitintr = "0.3"
rand = "0.8"
