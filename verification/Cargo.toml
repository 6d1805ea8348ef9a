[package]
name = "ternary_gemm"
version = "0.1.0"
edition = "2021"
publish = false

[dependencies]
ndarray = "0.15"
rand = "0.8"
