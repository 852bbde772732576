[package]
name = "thrust"
version = "0.1.0"
edition = "2021"
publish = false

[dependencies]
serde = { version = "=1.0.229", features = ["derive"] }
serde_json = "=1.0.154"
quick-xml = "=0.42.0"
zip = { version = "=9.1.0", default-features = false, features = ["deflate"] }
pyo3 = "=0.29.3"
numpy = "=0.29.0"
polars = { version = "=0.55.2", default-features = false, features = ["fmt", "lazy", "rolling_window", "temporal"] }
ndarray-linalg = "=0.18.1"
pyo3-polars = "=0.28.0"
