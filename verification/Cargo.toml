[package]
name = "benchmark_from_crates"
version = "0.1.0"
edition = "2021"
publish = false

[dependencies]
semver = "=1.0.28"
serde = { version = "=1.0.229", features = ["derive"] }
ron = "=0.8.1"
csv = "=1.4.0"
clap = { version = "=4.6.7", features = ["derive"] }
rayon = "=1.12.0"
crates-index = { version = "=3.14.2", features = ["git", "parallel"] }
pubgrub = "=0.3.0"
indicatif = { version = "=0.17.11", features = ["rayon"] }
