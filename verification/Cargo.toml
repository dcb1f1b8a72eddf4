[package]
name = "hestia"
version = "0.1.0"
edition = "2021"
publish = false

[dependencies]
blake3 = "1"
infer = "*"
anyhow = "1"
tokio = { version = "1", features = ["fs", "rt-multi-thread", "macros", "sync", "io-util", "time"] }
notify = "*"
notify-debouncer-full = "*"
sea-orm = { version = "1", default-features = false, features = ["sqlx-sqlite", "runtime-tokio", "macros", "with-chrono"] }
chrono = "0.4"
tracing = "0.1"
serde = { version = "1", features = ["derive"] }
async-trait = "0.1"
async-recursion = "1"
moka = { version = "0.12", features = ["sync"] }

[dev-dependencies]
tempfile = "3"
