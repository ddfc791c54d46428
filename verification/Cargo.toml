[package]
name = "coup_constraint"
version = "0.1.0"
edition = "2021"
publish = false

[dependencies]
ahash = "0.8"
log = "0.4"
