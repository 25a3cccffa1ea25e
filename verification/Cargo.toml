[package]
name = "runner"
version = "0.1.0"
edition = "2021"
publish = false

[dependencies]
anyhow = "1"
serde = { version = "1", features = ["derive"] }
serde_json = "1"
toml = "0.8"
sha2 = "0.10"
hex = "0.4"
minijinja = "2"
regex = "1"
chrono = "0.4"
rand = "0.8"
clap = { version = "4", features = ["derive"] }
wait-timeout = "0.2"
jsonschema = { version = "*", default-features = false }
tracing = "0.1"
tracing-subscriber = { version = "0.3", features = ["env-filter"] }
tokio = { version = "1", features = ["full"] }
axum = "0.8"
tower-http = { version = "0.6", features = ["cors", "fs"] }
notify = "*"
futures = "0.3"
async-stream = "0.3"

[dev-dependencies]
