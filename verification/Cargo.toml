[package]
name = "job_orchestrator"
version = "0.1.0"
edition = "2021"
publish = false

[dependencies]
anyhow = "*"
async-trait = "*"
chrono = "*"
serde_json = "*"
sqlx = { version = "*", default-features = false, features = ["postgres", "runtime-tokio", "uuid", "chrono", "json"] }
thiserror = "*"
tokio = { version = "*", features = ["rt-multi-thread", "macros", "time"] }
tracing = "*"
tracing-subscriber = { version = "*", features = ["env-filter"] }
uuid = "*"
