[package]
name = "radix_format"
version = "0.1.0"
edition = "2021"
publish = false

[dependencies]
lexical-util = { version = "0.8", features = ["radix", "write-integers"] }
