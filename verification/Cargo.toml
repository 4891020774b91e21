[package]
name = "zk_sumcheck"
version = "0.1.0"
edition = "2021"
publish = false

[dependencies]
rand = "=0.9.5"
rand_chacha = "=0.9.0"
serde = { version = "=1.0.229", features = ["derive"] }
sha2 = "=0.10.9"
