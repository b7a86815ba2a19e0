[package]
name = "geojoin"
version = "0.1.0"
edition = "2021"
publish = false

[dependencies]
anyhow = "*"
csv = "*"
encoding = "*"
flate2 = "*"
geojson = "*"
rstar = "*"
serde = { version = "*", features = ["derive"] }
serde_json = "*"
