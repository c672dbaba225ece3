[package]
name = "server_pulse"
version = "0.1.0"
edition = "2021"
publish = false

[dependencies]
argon2 = "0.5"
axum = "0.8"
chrono = "0.4"
craftping = { version = "*", features = ["async-tokio"] }
hex = "0.4"
rand = "0.8"
serde = { version = "1", features = ["derive"] }
sqlx = { version = "0.8", features = ["runtime-tokio", "sqlite"] }
tokio = { version = "1", features = ["macros", "rt-multi-thread", "net", "time", "signal"] }
tower-http = { version = "0.6", features = ["fs"] }
