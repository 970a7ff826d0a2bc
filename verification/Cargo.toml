[package]
name = "fraud_index"
version = "0.1.0"
edition = "2021"
publish = false

[dependencies]
axum = "0.7"
bytes = "1"
chrono = "0.4"
csv = "1"
flate2 = "1"
libc = "0.2"
memmap2 = "0.9"
mimalloc = { version = "0.1", default-features = false }
serde = { version = "1", features = ["derive"] }
serde_json = "1"
tokio = { version = "1", features = ["rt", "rt-multi-thread", "net", "macros"] }
ureq = { version = "2", default-features = false, features = ["json"] }
