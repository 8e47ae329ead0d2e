[package]
name = "windexer_core"
version = "0.1.0"
edition = "2021"
publish = false

[dependencies]
ark-bls12-381 = "0.3"
ark-ed-on-bls12-381 = "0.3"
ark-ff = "0.3"
ark-groth16 = "0.3"
ark-relations = "0.3"
ark-serialize = "0.3"
ark-snark = "0.3"
ark-std = "0.3"
rand = "0.8"
serde = { version = "1", features = ["derive"] }
toml = "0.8"
