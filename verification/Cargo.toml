[package]
name = "bilitools_storage"
version = "0.1.0"
edition = "2021"
publish = false

[dependencies]
serde = { version = "*", features = ["derive"] }
serde_json = "*"
sqlx = { version = "*", default-features = false, features = ["sqlite", "runtime-tokio", "macros"] }
tokio = { version = "*", features = ["rt-multi-thread", "macros", "fs"] }
