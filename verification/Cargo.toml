[package]
name = "audio_router"
version = "0.1.0"
edition = "2021"
publish = false

[dependencies]
colored = "*"
fundsp = "*"
jack = "*"
rppal = { version = "*", features = ["hal"] }
rtrb = "*"
serde = { version = "*", features = ["derive"] }
serde_json = "*"
vl53l0x-simple = "*"
