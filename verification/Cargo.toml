[package]
name = "mod_installer"
version = "0.1.0"
edition = "2021"
publish = false

[dependencies]
curl = "0.4"
zip = "0.6"
serde = { version = "1", features = ["derive"] }
serde_json = "1"
