[package]
name = "manta_circuits"
version = "0.1.0"
edition = "2021"
publish = false

[dependencies]
ark-std = "=0.4.0"
ark-ff = "=0.4.2"
ark-ec = "=0.4.2"
ark-serialize = "=0.4.2"
ark-relations = "=0.4.0"
ark-r1cs-std = "=0.4.0"
ark-crypto-primitives = { version = "=0.4.0", features = ["crh", "r1cs"] }
ark-bls12-381 = "=0.4.0"
ark-ed-on-bls12-381 = { version = "=0.4.0", features = ["r1cs"] }
ark-groth16 = "=0.4.0"
