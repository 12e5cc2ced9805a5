[package]
name = "cidr_aggregate"
version = "0.1.0"
edition = "2021"
publish = false

[dependencies]
maxminddb = "*"
ipnetwork = "*"
serde = { version = "*", features = ["derive"] }
serde_json = "*"
