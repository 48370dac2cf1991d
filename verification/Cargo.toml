[package]
name = "transit_departures"
version = "0.1.0"
edition = "2021"
publish = false

[dependencies]
askama = "=0.14.0"
askama-derive-axum = "=0.1.4"
axum = "=0.8.9"
axum-core = "=0.5.6"
dotenvy = "=0.15.7"
http = "=1.5.0"
reqwest = { version = "=0.12.28", features = ["json"] }
serde = { version = "=1.0.229", features = ["derive"] }
serde_json = "=1.0.154"
tokio = { version = "=1.54.1", features = ["macros", "rt-multi-thread", "net"] }
tower-http = { version = "=0.6.11", features = ["fs"] }
tracing = "=0.1.44"
