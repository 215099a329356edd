[package]
name = "soundz"
version = "0.1.0"
edition = "2021"
publish = false

[dependencies]
anyhow = "1"
hound = "3.5"
rubato = "0.15"
serde = { version = "1", features = ["derive"] }
symphonia = "0.5"
tempfile = "3"
