[package]
name = "repo_proxy"
version = "0.1.0"
edition = "2021"
publish = false

[dependencies]
anyhow = "1"
hudsucker = { version = "=0.20.0", features = ["rcgen-ca", "rustls-client"] }
hyper-rustls = "=0.24.2"
ipnet = { version = "=2.12.2", features = ["serde"] }
rcgen = "=0.11.3"
rustls-pemfile = "=1.0.4"
serde = { version = "1", features = ["derive"] }
tokio = { version = "1", features = ["macros", "rt-multi-thread", "signal"] }
toml = "=0.8.23"
xml-rs = "=0.8.29"
