[package]
name = "granary"
version = "0.1.0"
edition = "2021"
publish = false

[dependencies]
async-channel = "2"
blake3 = "1"
futures = "0.3"
postcard = { version = "1", features = ["alloc"] }
rustix = { version = "*", features = ["fs"] }
serde = { version = "1", features = ["derive"] }
serde_bytes = "0.11"
