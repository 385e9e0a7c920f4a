[package]
name = "wabi"
version = "0.1.0"
edition = "2021"
publish = false

[dependencies]
wasmtime = "=45.0.3"
