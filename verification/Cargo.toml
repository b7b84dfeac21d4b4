[package]
name = "turun_map"
version = "0.1.0"
edition = "2021"
publish = false

[dependencies]
form_urlencoded = "1"
percent-encoding = "2"
base64 = "0.22"
rand = "0.8"
serde = { version = "1", features = ["derive"] }
serde_yaml = "0.9"
serde_json = "1"
anyhow = "1"
chrono = "0.4"
time = { version = "0.3", features = ["serde", "local-offset", "formatting"] }
directories-next = "2"
ehttp = "0.5"
egui = "0.27"
rusqlite = "0.31"
strum = { version = "0.26", features = ["derive"] }
strum_macros = "0.26"
log = "0.4"
