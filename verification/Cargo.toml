[package]
name = "unidpp-signatif"
version = "0.1.0"
edition = "2021"
publish = false

[dependencies]
aes-gcm = "0.10"
curve25519-dalek = "4"
ed25519-dalek = "2"
hkdf = "0.12"
ml-kem = "0.3"
p256 = { version = "0.13", features = ["ecdsa"] }
serde = { version = "1", features = ["derive"] }
serde_json = "1"
sha2 = "0.10"
x25519-dalek = { version = "2", features = ["static_secrets"] }
