[package]
name = "s3fcp"
version = "0.1.0"
edition = "2021"
publish = false

[dependencies]
async-trait = "*"
aws-config = { version = "*", features = ["behavior-version-latest"] }
aws-sdk-s3 = "*"
bytes = "*"
clap = { version = "*", features = ["derive"] }
flume = "*"
indicatif = "*"
reqwest = { version = "*", default-features = false, features = ["rustls-tls"] }
tokio = { version = "*", features = ["rt-multi-thread", "macros", "io-util", "io-std", "sync", "time"] }
