[package]
name = "geolite"
version = "0.1.0"
edition = "2021"
publish = false

[dependencies]
prost = "*"
flate2 = "*"
rusqlite = { version = "*", features = ["bundled"] }
serde = { version = "*", features = ["derive"] }
serde_json = "*"
geo = "*"
rstar = "*"
tantivy = "*"
