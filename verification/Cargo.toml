[package]
name = "tuplet"
version = "0.3.0"
edition = "2021"
publish = false

[dependencies]
rand = "0.9"
serde = { version = "1", features = ["derive"] }
candle-core = { version = "0.9", default-features = false }
