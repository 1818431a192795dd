[package]
name = "mcpnr_pnr"
version = "0.1.0"
edition = "2021"
publish = false

[dependencies]
anyhow = "1"
approx = "0.5"
clap = "3"
env_logger = "0.9"
itertools = "0.10"
log = "0.4"
nalgebra = "0.31"
ndarray = "0.15"
prost = "0.11"
quartz_nbt = { version = "0.2", features = ["serde"] }
serde = { version = "1", features = ["derive"] }
serde_json = "1"
tracing = "0.1"
tracing-subscriber = { version = "0.3", features = ["env-filter"] }
