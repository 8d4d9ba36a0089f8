[package]
name = "rc5"
version = "0.1.0"
edition = "2021"
publish = false

[dependencies]
num = "0.4"
secrecy = "0.8"
thiserror = "1"
