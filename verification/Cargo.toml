[package]
name = "hugr_taso"
version = "0.1.0"
edition = "2021"
publish = false

[dependencies]
chrono = "=0.4.45"
csv = "=1.4.0"
futures-util = "=0.3.34"
hugr = "=0.30.3"
indicatif = "=0.17.11"
num_cpus = "=1.17.0"
portmatching = "=0.3.3"
priority-queue = "=1.4.0"
reqwest = { version = "=0.11.27", default-features = false, features = ["stream", "rustls-tls"] }
serde = { version = "=1.0.229", features = ["derive"] }
serde_json = "=1.0.154"
tokio = { version = "=1.54.1", features = ["macros", "rt-multi-thread"] }
