[package]
name = "consensus_graph"
version = "0.1.0"
edition = "2021"
publish = false

[dependencies]
blake3 = { version = "1", features = ["pure"] }
bs58 = { version = "0.4", features = ["check"] }
secp256k1 = { version = "0.22", features = ["global-context", "rand-std"] }
nom = "7"
serde = { version = "1", features = ["derive"] }
parking_lot = "0.12"
tokio = { version = "1", features = ["sync"] }

[dev-dependencies]
serde_json = "1"
