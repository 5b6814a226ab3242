[package]
name = "sparse_array"
version = "0.1.0"
edition = "2021"
publish = false

[dependencies]
bitcode = { version = "0.6", features = ["derive"] }
