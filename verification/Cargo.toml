[package]
name = "prime_ledger"
version = "0.1.0"
edition = "2021"
publish = false

[dependencies]
rulinalg = "0.4"
chrono = { version = "0.4", default-features = false, features = ["clock"] }
serde = { version = "1", features = ["derive"] }
serde_json = "1"
rocksdb = { version = "0.21", default-features = false }
nalgebra = "0.32"
pyo3 = "0.20"
axum = "0.6"
hyper = { version = "0.14", features = ["client", "http1", "tcp", "server"] }
tower = "0.4"
tower-http = { version = "0.4", features = ["cors", "fs"] }
tokio = { version = "1", features = ["rt-multi-thread", "macros", "fs"] }
jsonwebtoken = "8"
once_cell = "1"
