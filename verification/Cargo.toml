[package]
name = "pypeep"
version = "0.1.0"
edition = "2021"
publish = false

[dependencies]
clap = "4"
sqlx = { version = "0.8", default-features = false, features = ["runtime-tokio", "sqlite"] }
tabled = "*"
tokio = { version = "1", features = ["macros", "rt-multi-thread"] }
tracing = "0.1"
tracing-subscriber = "0.3"
