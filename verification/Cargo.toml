[package]
name = "raft"
version = "0.1.0"
edition = "2021"
publish = false

[dependencies]
serde = { version = "=1.0.229", features = ["derive"] }
bincode = "=1.3.3"
async-std = { version = "=1.13.2", features = ["unstable"] }
futures = "=0.3.34"
