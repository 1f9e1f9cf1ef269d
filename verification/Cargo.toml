[package]
name = "semsearch"
version = "0.1.0"
edition = "2021"
publish = false

[dependencies]
anyhow = "=1.0.104"
clap = { version = "=4.6.7", features = ["derive"] }
fastembed = { version = "=5.17.4", default-features = false, features = ["hf-hub-rustls-tls"] }
postcard = { version = "=1.1.3", features = ["alloc"] }
serde = { version = "=1.0.229", features = ["derive"] }
walkdir = "=2.5.0"
