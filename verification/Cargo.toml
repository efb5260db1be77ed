[package]
name = "raven_oss_tools"
version = "0.1.0"
edition = "2021"
publish = false

[dependencies]
ring = "*"
aws-config = "*"
aws-sdk-s3 = "*"
clap = { version = "*", features = ["derive"] }
home = "*"
serde = { version = "*", features = ["derive"] }
serde_json = "*"
tokio = { version = "*", features = ["rt-multi-thread", "macros", "fs", "io-util", "process"] }
