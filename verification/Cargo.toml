[package]
name = "hermit"
version = "0.1.0"
edition = "2021"
publish = false

[dependencies]
colored = "3"
ignore = "0.4"
rayon = "1"
regex = "1"
