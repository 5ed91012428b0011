[package]
name = "tdigest"
version = "0.1.0"
edition = "2021"
publish = false

[dependencies]
ordered-float = { version = "5", features = ["serde"] }
serde = { version = "1", features = ["derive"] }
bincode = { version = "2", features = ["serde"] }
rand = "0.9"
rayon = "1"
polars = { version = "0.51", default-features = false, features = ["dtype-struct"] }
pyo3 = { version = "0.25", features = ["abi3-py39", "extension-module"] }
jemallocator = "0.5"
