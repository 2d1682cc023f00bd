[package]
name = "reowolf"
version = "0.1.0"
edition = "2021"
publish = false

[dependencies]
integer-encoding = "=1.1.7"
byteorder = "=1.5.0"
indexmap = "1"
