[package]
name = "symi"
version = "0.1.0"
edition = "2021"
publish = false

[dependencies]
midly = { version = "0.5", default-features = false, features = ["std", "alloc"] }
anyhow = "1"
parking_lot = "0.12"
serde = { version = "1", features = ["derive"] }
