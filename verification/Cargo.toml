[package]
name = "deepseek_widget"
version = "0.1.0"
edition = "2021"
publish = false

[dependencies]
serde = { version = "=1.0.229", features = ["derive"] }
serde_json = "=1.0.154"
ureq = { version = "=2.12.1", features = ["json"] }
directories = "6"
eframe = { version = "=0.31.1", default-features = false, features = ["default_fonts", "glow", "x11"] }
