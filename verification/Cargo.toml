[package]
name = "mandolin"
version = "0.1.0"
edition = "2021"
publish = false

[dependencies]
minijinja = { version = "=2.24.0", features = ["json"] }
openapiv3 = "=2.2.0"
serde = { version = "=1.0.229", features = ["derive"] }
