[package]
name = "rio_isomorphism"
version = "0.1.0"
edition = "2021"
publish = false

[dependencies]
permutohedron = "0.2"
