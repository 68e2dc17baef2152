[package]
name = "tensor"
version = "0.1.0"
edition = "2021"

[dependencies]
digit-layout = "*"
ndarray-layout = "*"
