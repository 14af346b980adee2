[package]
name = "error_classifier"
version = "0.1.0"
edition = "2021"
publish = false

[dependencies]
surrealdb = { version = "=3.3.0", default-features = false }
actix-web = { version = "=4.15.0", default-features = false }
serde = { version = "=1.0.229", features = ["derive"] }
thiserror = "=2.0.21"

[dev-dependencies]
serde_json = "=1.0.151"
