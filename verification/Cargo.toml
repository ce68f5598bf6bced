[package]
name = "badger_chain"
version = "0.1.0"
edition = "2021"
publish = false

[dependencies]
sha2 = "=0.10.9"
threshold_crypto = "=0.4.0"
hbbft = "=0.1.1"
lru = "=0.12.5"
hex = "=0.4.3"
bincode = "=1.3.3"
serde = { version = "=1.0.229", features = ["derive"] }
serde_json = "=1.0.154"
parity-scale-codec = "=3.7.5"
rand = "=0.6.5"
