[package]
name = "zapfast"
version = "0.1.0"
edition = "2021"
publish = false

[dependencies]
egui = { version = "=0.37.0", default-features = false }
jiff = "=0.2.39"
rusqlite = "0.41"
serde_json = "=1.0.154"
whatsapp-rust = { version = "=0.7.0", default-features = false }
