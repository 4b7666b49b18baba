[package]
name = "klok"
version = "0.1.0"
edition = "2021"
publish = false

[dependencies]
lofty = "*"
serde = { version = "*", features = ["derive"] }
serde_json = "*"
