[package]
name = "gypaetus"
version = "0.1.0"
edition = "2021"
publish = false

[dependencies]
art-tree = "*"
furze = "*"
memmap2 = "*"
parking_lot = "*"
lock_api = "*"
serde = { version = "*", features = ["derive"] }
serde_json = "*"

[dev-dependencies]
varintrs = "*"
chrono = "*"
