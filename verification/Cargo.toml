[package]
name = "parsed_email"
version = "0.1.0"
edition = "2021"
publish = false

[dependencies]
anyhow = "1"
cfdkim = "0.3.0"
hex = "0.4.3"
mailparse = "0.15.0"
serde = { version = "1", features = ["derive"] }
serde_json = "1"
