[package]
name = "cex_zkp"
version = "0.1.0"
edition = "2021"
publish = false

[dependencies]
rust_decimal = "1"
slotmap = "1"
ark-bn254 = "0.3"
ark-ff = "0.3"
ark-sponge = { version = "0.3", features = ["r1cs"] }
ark-r1cs-std = "0.3"
ark-relations = "0.3"
rand = "0.8"
serde = { version = "1", features = ["derive"] }
serde_json = "1"
axum = "0.7"
tokio = { version = "1", features = ["rt-multi-thread", "macros", "sync", "time"] }
chrono = "0.4"
parking_lot = "0.12"
metrics-exporter-prometheus = { version = "0.15", default-features = false }
tracing = "0.1"
reqwest = { version = "0.12", default-features = false, features = ["json"] }
sqlx = { version = "0.8", default-features = false, features = ["runtime-tokio", "postgres", "rust_decimal"] }
