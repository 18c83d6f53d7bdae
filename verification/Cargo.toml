[package]
name = "upper_bounds"
version = "0.1.0"
edition = "2021"
publish = false

[dependencies]
atty = "0.2"
regex = "1"
version-compare = "0.0.11"
