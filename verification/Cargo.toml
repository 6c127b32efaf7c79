[package]
name = "kzg-prover"
version = "0.1.0"
edition = "2021"
publish = false

[dependencies]
blst = "=0.3.17"
tiny-keccak = { version = "=2.0.2", features = ["keccak"] }
hex = "=0.4.3"
alloy = { version = "=0.8.3", default-features = false, features = ["std", "sol-types", "network", "providers", "provider-http", "rpc-types", "signer-local"] }
actix-web = { version = "=4.18.1", default-features = false, features = ["macros"] }
actix-cors = "=0.7.2"
rusqlite = { version = "=0.32.1", features = ["bundled"] }
tokio = { version = "=1.54.1", features = ["rt-multi-thread", "time"] }
serde = { version = "=1.0.229", features = ["derive"] }
anyhow = "=1.0.104"
dotenv = "=0.15.0"
log = "=0.4.35"
