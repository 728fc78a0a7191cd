[package]
name = "serde_yaml2"
version = "0.1.0"
edition = "2021"
publish = false

[dependencies]
serde = { version = "1", features = ["derive"] }
thiserror = "1"
yaml-rust2 = "*"
