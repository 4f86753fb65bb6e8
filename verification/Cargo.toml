[package]
name = "tf_format"
version = "0.1.0"
edition = "2021"
publish = false

[dependencies]
anyhow = "=1.0.104"
approx = "=0.5.1"
clap = { version = "=4.6.7", features = ["derive"] }
indexmap = "=2.14.2"
json5 = "=0.4.1"
nalgebra = "=0.32.6"
ndarray = "0.15"
noisy_float = { version = "=0.2.1", features = ["serde"] }
num = "=0.4.3"
numpy = "0.20"
pyo3 = "0.20"
serde = { version = "=1.0.229", features = ["derive"] }
serde_json = "=1.0.154"
serde_yaml = "=0.9.34"
thiserror = "=1.0.69"
