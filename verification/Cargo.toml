[package]
name = "cache_summary"
version = "0.1.0"
edition = "2021"
publish = false

[dependencies]
humansize = "1.1"
rayon = "1"
walkdir = "2"
