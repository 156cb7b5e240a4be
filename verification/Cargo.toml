[package]
name = "library"
version = "0.1.0"
edition = "2021"
publish = false

[dependencies]
proconio = { version = "0.4", features = ["derive"] }
