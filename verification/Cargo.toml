[package]
name = "nimble"
version = "0.1.0"
edition = "2021"
publish = false

[dependencies]
tokio = { version = "=1.53.2", features = ["full"] }
tokio-postgres = { version = "=0.7.18", features = ["with-uuid-1"] }
serde = { version = "=1.0.229", features = ["derive"] }
serde_json = "=1.0.151"
uuid = { version = "=1.27.0", features = ["v4", "serde"] }
chrono = "=0.4.45"
aws-config = "=1.12.0"
aws-sdk-sns = "=1.116.0"
dotenv = "=0.15.0"
log = "=0.4.34"
