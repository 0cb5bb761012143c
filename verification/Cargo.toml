[package]
name = "booru_index"
version = "0.1.0"
edition = "2021"
publish = false

[dependencies]
axum = "0.6"
chrono = { version = "0.4", default-features = false, features = ["std", "serde"] }
futures = "0.3"
fxhash = "0.2"
serde = { version = "1", features = ["derive"] }
serde_json = "1"
sqlx = { version = "0.7", features = ["postgres", "runtime-tokio", "chrono"] }
tokio = { version = "1", features = ["rt-multi-thread", "macros", "sync"] }
