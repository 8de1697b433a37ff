[package]
name = "dzkp"
version = "0.1.0"
edition = "2021"
publish = false

[dependencies]
merlin = "3"
rand = "0.8"
