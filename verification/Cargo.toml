[package]
name = "pattern_classifier"
version = "0.1.0"
edition = "2021"
publish = false

[dependencies]
embeddenator-io = "=0.21.0"
embeddenator-vsa = { version = "=0.23.0", default-features = false }
serde = { version = "=1.0.229", features = ["derive"] }
serde_json = "=1.0.154"
wit-bindgen = "=0.63.0"
