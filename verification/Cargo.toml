[package]
name = "buffa"
version = "0.1.0"
edition = "2021"
publish = false

[dependencies]
bytes = "1"
proc-macro2 = "=1.0.107"
quote = "=1.0.47"
