[package]
name = "robust_rs"
version = "0.1.0"
edition = "2021"
publish = false

[dependencies]
rand = "0.9"
rand_chacha = "0.9"
ndarray = "0.16"
faer = "0.22"
libm = "0.2"
