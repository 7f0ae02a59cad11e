[package]
name = "xa_promote"
version = "0.1.0"
edition = "2021"
publish = false

[dependencies]
rand = { version = "0.9.5", features = ["small_rng"] }
rand_distr = "0.5.1"
approx = "0.5.1"
serde = { version = "1.0.229", features = ["derive"] }
serde_with = "3.24.0"
toml = "0.9.8"
clap = { version = "4.6.7", features = ["derive"] }
tokio = { version = "1.54.1", features = ["rt-multi-thread", "macros", "fs", "sync"] }
anyhow = "1.0.104"
itertools = "0.14.0"
arrow-array = "60.1.0"
arrow-schema = "60.1.0"
parquet = { version = "60.1.0", default-features = false, features = ["arrow", "async", "zstd"] }
