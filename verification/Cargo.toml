[package]
name = "spartan_sha"
version = "0.1.0"
edition = "2021"
publish = false

[dependencies]
blake3 = "1.8.7"
crypto-bigint = "0.7.10"
num-bigint = "0.4.8"
num-traits = "0.2.19"
rayon = "1.12.0"
serde_json = "1.0.154"
thiserror = "2.0.21"
tracing = "0.1.44"
circuit = "0.1.0"
