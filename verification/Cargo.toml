[package]
name = "tuple_crasher"
version = "0.1.0"
edition = "2021"
publish = false

[dependencies]
ahash = "*"
clap = "3"
