[package]
name = "station_stats"
version = "0.1.0"
edition = "2021"
publish = false

[dependencies]
ahash = "0.8"
anyhow = "1"
jemallocator = "0.5"
memchr = "2"
