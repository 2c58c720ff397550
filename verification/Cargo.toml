[package]
name = "cfpyo3_core"
version = "0.1.0"
edition = "2021"
publish = false

[dependencies]
md5 = "*"
redis = { version = "*", features = ["cluster"] }
rayon = "*"
tokio = { version = "*", features = ["rt", "rt-multi-thread"] }
futures = "*"
