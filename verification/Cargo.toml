[package]
name = "lindenmayer"
version = "0.1.0"
edition = "2021"
publish = false

[dependencies]
glam = "0.24"
rand = "0.8"
rand_xoshiro = "0.6"
rustc-hash = "1.1"
