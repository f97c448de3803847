[package]
name = "merk"
version = "0.1.0"
edition = "2021"
publish = false

[dependencies]
sha2 = "=0.10.9"
blake2-rfc = "=0.2.18"
hex = "=0.4.3"
thiserror = "=1.0.69"
serde = { version = "=1.0.229", features = ["derive"] }
bincode = "=1.3.3"
colored = "2"
