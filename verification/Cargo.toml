[package]
name = "cantor"
version = "0.1.0"
edition = "2021"
publish = false

[dependencies]
sha2 = "*"
lz4 = "*"
hex = "*"
serde = { version = "*", features = ["derive"] }
thiserror = "*"
