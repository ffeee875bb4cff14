[package]
name = "identity_core"
version = "0.1.0"
edition = "2021"
publish = false

[dependencies]
jsonwebtoken = { version = "=11.1.0", features = ["rust_crypto"] }
argon2 = "=0.6.0"
rand = "=0.10.3"
axum = "=0.8.9"
tokio = { version = "=1.53.2", features = ["rt-multi-thread", "macros", "signal", "net"] }
sqlx = { version = "=0.9.0", default-features = false, features = ["runtime-tokio", "postgres", "uuid"] }
serde = { version = "=1.0.229", features = ["derive"] }
serde_json = "=1.0.151"
tower = "=0.5.3"
tower-http = { version = "=0.7.1", features = ["trace", "cors"] }
tracing = "=0.1.44"
tracing-subscriber = { version = "=0.3.23", features = ["env-filter"] }
dotenvy = "=0.15.7"
uuid = { version = "=1.27.0", features = ["v7"] }
