[package]
name = "snark_evm"
version = "0.1.0"
edition = "2021"
publish = false

[dependencies]
halo2curves-axiom = "=0.7.3"
snark-verifier = { version = "=0.2.7", features = ["revm"] }
thiserror = "*"

[dev-dependencies]
serde_json = "*"
