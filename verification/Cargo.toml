[package]
name = "moose_irc2"
version = "0.1.0"
edition = "2021"
publish = false

[dependencies]
leaky-bucket = "*"
percent-encoding = "*"
clap = { version = "*", features = ["derive"] }
serde = { version = "*", features = ["derive"] }
serde_json = "*"
thiserror = "*"
rand = "*"
futures = "*"
tokio = { version = "*", features = ["full"] }
tokio-util = { version = "*", features = ["codec"] }
tokio-rustls = "*"
rustls-native-certs = "*"
rustls-pemfile = "*"
reqwest = { version = "*", default-features = false, features = ["rustls-tls", "json"] }
