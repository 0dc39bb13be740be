[package]
name = "bottle"
version = "0.1.0"
edition = "2021"
publish = false

[dependencies]
chrono = { version = "0.4", features = ["serde"] }
serde = { version = "1", features = ["derive"] }
bincode = "1"
pancurses = "0.17"
websocket = { version = "0.27", default-features = false, features = ["sync"] }
