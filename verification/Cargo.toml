[package]
name = "searchdb"
version = "0.1.0"
edition = "2021"
publish = false

[dependencies]
ahash = "0.8"
napi = "2"
napi-derive = "2"
