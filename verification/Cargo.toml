[package]
name = "iptrie"
version = "0.1.0"
edition = "2021"
publish = false

[dependencies]
bincode = { version = "2", features = ["derive"] }
chrono = "0.4"
clap = { version = "4", features = ["derive"] }
maxminddb = "*"
rand = "0.9"
rayon = "1"
serde = { version = "1", features = ["derive"] }
