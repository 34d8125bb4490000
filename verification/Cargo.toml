[package]
name = "bf-gb"
version = "0.1.0"
edition = "2021"
publish = false

[dependencies]
anyhow = "1"
clap = { version = "4", features = ["derive"] }
ctrlc = "3"
linfa = "=0.7.1"
linfa-trees = "=0.7.1"
ndarray = "0.15"
polars = { version = "0.55", default-features = false, features = ["csv"] }
rand = "0.8"
rand_chacha = "0.3"
redis = { version = "1", default-features = false, features = ["script"] }
serde = { version = "1", features = ["derive"] }
serde_json = "1"
tracing = "0.1"
tracing-subscriber = "0.3"
