[package]
name = "batch_file_renamer"
version = "0.1.0"
edition = "2021"
publish = false

[dependencies]
calamine = "=0.38.0"
chrono = "=0.4.45"
eframe = { version = "=0.31.1", default-features = false, features = ["default_fonts", "glow", "x11"] }
rfd = "=0.15.4"
rust_xlsxwriter = "=0.88.1"
serde = { version = "=1.0.229", features = ["derive"] }
serde_json = "=1.0.154"
thiserror = "=2.0.21"
uuid = { version = "=1.29.0", features = ["v4"] }
