[package]
name = "container_stats"
version = "0.1.0"
edition = "2021"
publish = false

[dependencies]
axum = { version = "0.6", features = ["ws"] }
bollard = "0.14"
futures = "0.3"
leptos = { version = "0.5", features = ["ssr"] }
serde = { version = "1", features = ["derive"] }
serde_json = "1"
tokio = { version = "1", features = ["full"] }
tower-http = { version = "0.4", features = ["fs"] }
tracing = "0.1"
