[package]
name = "zk_smt"
version = "0.1.0"
edition = "2021"
publish = false

[dependencies]
sha2 = "*"
hex = "*"
ark-bls12-381 = "*"
ark-ff = "*"
serde = { version = "*", features = ["derive"] }
serde_json = "*"
candid = "*"
ic-cdk = "*"
ic-cdk-macros = "*"
