[package]
name = "claippy"
version = "0.1.0"
edition = "2021"
publish = false

[dependencies]
chrono = "=0.4.45"
serde = { version = "*", features = ["derive"] }
serde_json = "*"
log = "*"
env_logger = "*"
colored = "*"
reqwest = { version = "*", default-features = false, features = ["blocking", "rustls-tls"] }
tokio = { version = "*", features = ["rt-multi-thread"] }
aws-config = { version = "*", default-features = false, features = ["behavior-version-latest"] }
aws-sdk-bedrockruntime = { version = "*", default-features = false }
rustyline = { version = "*", features = ["derive"] }
ignore = "*"
syntect = { version = "*", default-features = false, features = ["default-fancy"] }
termimad = "*"
