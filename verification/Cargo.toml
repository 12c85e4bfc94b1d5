[package]
name = "witness"
version = "0.1.0"
edition = "2021"
publish = false

[dependencies]
zstd = "=0.13.4"
libc = "=0.2.191"
csv = "=1.4.0"
bytes = "=1.12.1"
arrow-array = "=59.3.2"
parquet = "=59.3.2"
orc-rust = "=0.9.0"
