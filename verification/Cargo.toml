[package]
name = "backend"
version = "0.1.0"
edition = "2021"
publish = false

[dependencies]
anyhow = "*"
geo = "*"
geojson = "*"
serde = { version = "*", features = ["derive"] }
serde_json = "*"
