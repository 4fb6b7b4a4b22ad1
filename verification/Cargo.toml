[package]
name = "advent2023"
version = "0.1.0"
edition = "2021"
publish = false

[dependencies]
regex = "1"
itertools = "0.12"
counter = "0.5"
lcmx = "*"
ascii_converter = "*"
geo = "0.27"
rusttype = "0.9"
lazy_static = "1.4"
