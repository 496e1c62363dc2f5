[package]
name = "vector_db_core"
version = "0.1.0"
edition = "2021"
publish = false

[dependencies]
actix-web = "*"
ndarray = "*"
serde = { version = "*", features = ["derive"] }
thiserror = "*"
tokio = { version = "*", features = ["sync", "macros", "rt-multi-thread"] }
