[package]
name = "rt_analysis"
version = "0.1.0"
edition = "2021"
publish = false

[dependencies]
libc = "0.2"
typenum = "1"
