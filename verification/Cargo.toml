[package]
name = "trustless_file_server"
version = "0.1.0"
edition = "2021"
publish = false

[dependencies]
sha2 = "*"
binascii = "*"
serde = { version = "*", features = ["derive"] }
