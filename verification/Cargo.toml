[package]
name = "bifrost_timeseries"
version = "0.1.0"
edition = "2021"
publish = false

[dependencies]
zstd = "*"
chrono = "*"
memmap2 = "*"
