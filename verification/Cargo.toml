[package]
name = "record_batch_projector"
version = "0.1.0"
edition = "2021"
publish = false

[dependencies]
arrow-array = "=60.1.0"
arrow-buffer = "=60.1.0"
arrow-schema = "=60.1.0"
parquet = { version = "=60.1.0", default-features = false, features = ["arrow"] }
