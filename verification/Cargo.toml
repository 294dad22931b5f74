[package]
name = "holdem_blueprint"
version = "0.1.0"
edition = "2021"
publish = false

[dependencies]
rand = { version = "0.8", features = ["small_rng"] }
tokio = { version = "1", features = ["rt-multi-thread", "macros", "sync", "time"] }
tokio-postgres = "0.7"
sqlx = { version = "0.7", default-features = false, features = ["runtime-tokio", "postgres"] }
futures = "0.3"
num_cpus = "1"
