[package]
name = "genetic"
version = "0.1.0"
edition = "2021"
publish = false

[dependencies]
rand = "0.7"
lazysort = "*"
rayon = "1"
envconfig = "*"
lazy_static = "1"
