[package]
name = "semaphore_contract"
version = "0.1.0"
edition = "2021"
publish = false

[dependencies]
near-sdk = "=5.29.1"
semaphore-rs = "=0.6.0"
semaphore-rs-poseidon = "=0.6.0"
ruint = "=1.21.1"
serde = { version = "=1.0.229", features = ["derive"] }
serde_json = "=1.0.154"
