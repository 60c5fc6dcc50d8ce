[package]
name = "texture_wizard"
version = "0.1.0"
edition = "2021"
publish = false

[dependencies]
anyhow = "*"
chrono = "*"
gl = "*"
image = "*"
sdl2 = "*"
serde = { version = "*", features = ["derive"] }
serde_yaml = "*"
