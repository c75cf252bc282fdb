[package]
name = "noise_query"
version = "0.1.0"
edition = "2021"
publish = false

[dependencies]
capnp = "=0.27.3"
rocksdb = "=0.25.0"
