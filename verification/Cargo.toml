[package]
name = "reparador-videos"
version = "0.1.0"
edition = "2021"
publish = false

[dependencies]
memmap2 = "0.9"
notify = "8"
serde = { version = "1", features = ["derive"] }
tokio = { version = "1", features = ["process", "io-util", "time", "rt"] }
