[package]
name = "obamify"
version = "0.1.0"
edition = "2021"
publish = false

[dependencies]
frand = "*"
image = { version = "0.25", default-features = false, features = ["png"] }
serde = { version = "1", features = ["derive"] }
uuid = { version = "1", features = ["v4", "serde"] }
