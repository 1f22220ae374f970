[package]
name = "trainyard"
version = "0.1.0"
edition = "2021"
publish = false

[dependencies]
serde = { version = "1", features = ["derive"] }
serde_json = "1"
macroquad = "0.3"
sdl2 = "0.35"
