[package]
name = "dada"
version = "0.1.0"
edition = "2021"
publish = false

[dependencies]
stacker = "0.1"
