[package]
name = "rustspell-server"
version = "0.1.0"
edition = "2021"
publish = false

[dependencies]
sha2 = "=0.10.9"
uuid = { version = "=1.29.0", features = ["v4"] }
spellbook = "=0.4.2"
serde = { version = "=1.0.229", features = ["derive"] }
serde_json = "=1.0.154"
anyhow = "=1.0.104"
axum = "=0.7.9"
tokio = { version = "=1.54.1", features = ["macros", "rt-multi-thread", "net", "signal", "time", "fs", "sync"] }
tower = "=0.4.13"
tower-http = { version = "=0.5.2", features = ["cors", "trace", "request-id"] }
sqlx = { version = "=0.8.6", default-features = false, features = ["any", "sqlite", "postgres", "runtime-tokio"] }
reqwest = { version = "=0.12.28", default-features = false, features = ["rustls-tls"] }
tracing = "=0.1.44"
tracing-subscriber = { version = "=0.3.23", features = ["env-filter"] }
metrics = "=0.23.1"
metrics-exporter-prometheus = { version = "=0.15.3", default-features = false }
directories = "=5.0.1"
tempfile = "=3.27.0"
swagger-ui-dist = { version = "=5.34.1", default-features = false, features = ["with-axum-07"] }
