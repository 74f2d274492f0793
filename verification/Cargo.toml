[package]
name = "redpine"
version = "0.3.0"
edition = "2021"
publish = false

[dependencies]
rand = "0.8"
siphasher = "1"
polling = "3"
