[package]
name = "ds4"
version = "0.1.0"
edition = "2021"
publish = false

[dependencies]
ahash = "0.8"
anyhow = "1"
bytemuck = "1"
clap = { version = "4", features = ["derive"] }
cudarc = { version = "0.11", default-features = false, features = ["std", "driver", "nvrtc", "cublas", "cuda-12040"] }
env_logger = "0.11"
indexmap = "2"
libc = "0.2"
memmap2 = "0.9"
rand = "0.8"
rand_xoshiro = "0.6"
rustyline = "14"
thiserror = "1"

[dev-dependencies]
half = "2"
