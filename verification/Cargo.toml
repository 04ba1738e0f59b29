[package]
name = "bytemaker"
version = "0.1.0"
edition = "2021"
publish = false

[dependencies]
async-openai = { version = "=0.43.0", features = ["chat-completion"] }
async-trait = "=0.1.92"
chrono = "=0.4.45"
colored = "=3.1.1"
croner = "=4.0.2"
dotenv = "=0.15.0"
dunce = "=1.0.5"
fastrand = "=2.5.0"
futures-util = "=0.3.34"
reedline = "=0.52.1"
regex = "=1.13.1"
serde = { version = "=1.0.229", features = ["derive"] }
serde_json = { version = "=1.0.154", features = ["float_roundtrip"] }
serde_yaml = "=0.9.34"
sha2 = "=0.10.9"
tempfile = "=3.27.0"
thiserror = "=2.0.21"
tokio = { version = "=1.54.1", features = ["full"] }
tokio-util = "=0.7.20"
tracing = "=0.1.44"
tracing-subscriber = { version = "=0.3.23", features = ["env-filter"] }
