[package]
name = "rust_kb"
version = "0.1.0"
edition = "2021"
publish = false

[dependencies]
weak-table = "0.3"
nom = "4"
