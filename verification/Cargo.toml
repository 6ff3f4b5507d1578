[package]
name = "lighthouse_core"
version = "0.1.0"
edition = "2021"
publish = false

[dependencies]
arbitrary = { version = "1", features = ["derive"] }
clap = { version = "4", features = ["derive"] }
ethereum_ssz = "0.8"
ethereum_ssz_derive = "0.8"
fnv = "1"
futures = "0.3"
hex = "0.4"
parking_lot = "0.12"
rand = "0.8"
serde = { version = "1", features = ["derive"] }
ssz_types = "0.10"
strum = { version = "0.24", features = ["derive"] }
tokio = { version = "1", features = ["rt", "sync", "time"] }
tracing = "0.1"
