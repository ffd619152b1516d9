[package]
name = "olooper"
version = "0.1.0"
edition = "2021"
publish = false

[dependencies]
flate2 = "=1.1.10"
rodio = { version = "=0.21.1", default-features = false, features = ["wav", "mp3"] }
sha2 = "=0.10.9"
rusqlite = { version = "=0.32.1", features = ["bundled"] }
serde = { version = "=1.0.229", features = ["derive"] }
serde_json = "=1.0.154"
wsola = "=0.3.0"
