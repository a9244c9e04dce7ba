[package]
name = "polytype"
version = "0.1.0"
edition = "2021"
publish = false

[dependencies]
fnv = "1.0"
itertools = "0.10"
typed-arena = "2.0"
