[package]
name = "zboard"
version = "0.1.0"
edition = "2021"
publish = false

[dependencies]
anyhow = "1"
chrono = { version = "0.4", features = ["clock"] }
notify = "*"
rmcp = { version = "*", features = ["server", "transport-io", "macros", "schemars"] }
serde = { version = "1", features = ["derive"] }
serde_json = "1"
tokio = { version = "1", features = ["rt", "rt-multi-thread", "macros", "time", "io-std"] }
ulid = "1"
zstd = "0.13"

[dev-dependencies]
tempfile = "3"
