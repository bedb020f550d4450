[package]
name = "faidx"
version = "0.1.0"
edition = "2021"
publish = false

[dependencies]
async-trait = "0.1"
thiserror = "2"
tokio = { version = "1", default-features = false, features = ["fs", "io-util", "sync"] }

[dev-dependencies]
nom = "8"
