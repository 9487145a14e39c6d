[package]
name = "rust_rocket"
version = "0.1.0"
edition = "2021"
publish = false

[dependencies]
bincode = "2"
byteorder = "1"
serde = { version = "1", features = ["derive"] }
thiserror = "1"
