[package]
name = "chunkah"
version = "0.6.0"
edition = "2021"
publish = false

[dependencies]
anyhow = "1"
camino = "1"
cap-std-ext = "*"
chrono = "0.4"
indexmap = "2"
tracing = "0.1"
