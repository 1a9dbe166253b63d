[package]
name = "college_cal"
version = "0.1.0"
edition = "2021"
publish = false

[dependencies]
chrono = "0.4"
chrono-tz = "0.10"
eframe = { version = "0.31", default-features = false, features = ["default_fonts", "glow", "persistence", "x11"] }
reqwest = { version = "0.12", default-features = false, features = ["blocking", "rustls-tls"] }
rfd = { version = "0.15", default-features = false }
serde = { version = "1", features = ["derive"] }
