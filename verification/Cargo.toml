[package]
name = "maitria-kernels"
version = "0.1.0"
edition = "2021"
publish = false

[dependencies]
num-bigint = "0.4"
num-integer = "0.1"
num-traits = "0.2"
sha2 = "0.10"
ciborium = "0.2"
serde = { version = "1", features = ["derive"] }
serde_bytes = "0.11"
thiserror = "2"
rayon = "1"
cudarc = { version = "*", default-features = false, features = ["std", "driver", "nvrtc", "cuda-12080", "dynamic-loading"] }
