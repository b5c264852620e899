[package]
name = "rustbpe"
version = "0.1.0"
edition = "2021"
publish = false

[dependencies]
dary_heap = "*"
rayon = "*"
fancy-regex = "*"
