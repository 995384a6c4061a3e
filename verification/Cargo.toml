[package]
name = "hifzr"
version = "0.1.0"
edition = "2021"
publish = false

[dependencies]
unicode-normalization = "*"
anyhow = "*"
clap = { version = "*", features = ["derive"] }
futures-util = "*"
owo-colors = "*"
reqwest = { version = "*", default-features = false, features = ["json", "stream", "rustls-tls"] }
serde = { version = "*", features = ["derive"] }
serde_json = "*"
tokio = { version = "*", features = ["macros", "rt-multi-thread", "fs", "time", "io-util"] }
