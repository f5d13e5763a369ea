[package]
name = "xim"
version = "0.1.0"
edition = "2021"
publish = false

[dependencies]
serde = { version = "=1.0.229", features = ["derive"] }
bincode = "=1.3.3"
thiserror = "=1.0.69"
anyhow = "=1.0.104"
tracing = "=0.1.44"
tracing-subscriber = "=0.3.23"
crossbeam-channel = "=0.5.17"
rayon = "=1.12.0"
memmap2 = "=0.9.12"
libloading = "=0.8.9"
pyo3 = "=0.21.2"
numpy = "=0.21.0"
cranelift = "=0.134.4"
cranelift-jit = "=0.134.4"
cranelift-module = "=0.134.4"
