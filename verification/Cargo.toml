[package]
name = "puppies"
version = "0.1.0"
edition = "2021"
publish = false

[dependencies]
csv = "0.15"
fnv = "1"
rand = "0.4"
scoped-pool = "1"
