[package]
name = "winnow"
version = "0.1.0"
edition = "2021"
publish = false

[dependencies]
unidiff = "*"
colored = "*"
