[package]
name = "flagview"
version = "0.1.0"
edition = "2021"
publish = false

[dependencies]
termion = "1.5"
clap = { version = "3", features = ["derive"] }
serde = { version = "1", features = ["derive"] }
serde_yaml = "0.8"
enum-iterator = "1"
image = { version = "0.24", default-features = false, features = ["png", "jpeg", "bmp"] }
framebuffer = "0.3"

[dev-dependencies]
regex = "1"
