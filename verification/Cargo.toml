[package]
name = "rustify"
version = "0.1.0"
edition = "2021"
publish = false

[dependencies]
image = { version = "*", default-features = false, features = ["png", "jpeg", "pnm"] }
serde = { version = "*", features = ["derive"] }
serde_json = "*"
