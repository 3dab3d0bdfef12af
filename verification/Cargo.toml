[package]
name = "mil1750a"
version = "0.1.0"
edition = "2021"
publish = false

[dependencies]
half = "*"
