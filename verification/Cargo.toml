[package]
name = "dns_client"
version = "0.1.0"
edition = "2021"
publish = false

[dependencies]
axum = { version = "*", default-features = false }
