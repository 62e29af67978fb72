[package]
name = "lockjaw"
version = "0.1.0"
edition = "2021"
publish = false

[dependencies]
anyhow = "=1.0.104"
serde = { version = "1", features = ["derive"] }
serde_yaml = "0.9"
toml = "0.8"
directories = "5"
reqwest = { version = "0.12", default-features = false, features = ["blocking"] }
egui = "0.29"
egui_commonmark = { version = "0.18", default-features = false }
tracing = "0.1"
tracing-subscriber = "0.3"
