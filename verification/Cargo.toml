[package]
name = "cdm_oprf"
version = "0.1.0"
edition = "2021"
publish = false

[dependencies]
rand = "=0.8.8"
rand_core = "=0.6.4"
subtle = "=2.6.1"
blake3 = { version = "1", features = ["pure"] }
