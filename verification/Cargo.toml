[package]
name = "jucenit"
version = "0.1.0"
edition = "2021"
publish = false

[dependencies]
acme2 = "*"
chrono = "*"
clap = { version = "*", features = ["derive"] }
futures = "*"
openssl = "*"
reqwest = { version = "*", features = ["json"] }
serde = { version = "*", features = ["derive"] }
serde_json = "*"
serde_yaml = "*"
tokio = { version = "*", features = ["rt-multi-thread", "macros", "time", "fs"] }
toml = "*"
