[package]
name = "nix_cache_pin"
version = "0.1.0"
edition = "2021"
publish = false

[dependencies]
semver = "1"
regex = "1"
serde = { version = "1", features = ["derive"] }
serde_json = "1"
reqwest = { version = "0.12", default-features = false, features = ["json", "stream", "rustls-tls"] }
tokio = { version = "1", features = ["full"] }
futures-util = "0.3"
indicatif = "0.17"
colored = "2"
clap = { version = "4", features = ["derive"] }
anyhow = "1"
thiserror = "1"
