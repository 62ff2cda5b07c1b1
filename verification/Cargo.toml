[package]
name = "photo_scanner"
version = "0.1.0"
edition = "2021"
publish = false

[dependencies]
anyhow = "*"
async-openai = { version = "=0.42.1", features = ["chat-completion", "embedding"] }
base64 = "*"
chrono = "*"
dotenv = "*"
futures = "*"
image = "*"
indicatif = "*"
little_exif = "=0.6.23"
qdrant-client = "=1.19.0"
serde_json = "*"
tokio = { version = "*", features = ["full"] }
tracing = "*"
tracing-appender = "*"
tracing-subscriber = { version = "*", features = ["env-filter"] }
xmp_toolkit = { version = "=1.12.1", features = ["chrono"] }
