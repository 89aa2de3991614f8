[package]
name = "schnell"
version = "0.1.0"
edition = "2021"
publish = false

[dependencies]
chrono = "0.4"
log = "0.4"
num_cpus = "1"
pretty_env_logger = "0.5"
scoped_threadpool = "0.1"
serde = { version = "1", features = ["derive"] }
serde_json = "1"
