[package]
name = "confi"
version = "0.1.0"
edition = "2021"
publish = false

[dependencies]
ndarray = "*"
num-traits = "0.2"
statrs = "0.16"
thiserror = "1"
