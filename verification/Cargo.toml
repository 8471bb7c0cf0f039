[package]
name = "rs_key"
version = "0.1.0"
edition = "2021"
publish = false

[dependencies]
sha3 = "0.10"
sha2 = "0.10"
hmac = "0.12"
hkdf = "0.12"
chacha20poly1305 = "0.10"
aes = "0.8"
cbc = { version = "0.1", features = ["alloc"] }
p256 = { version = "0.13", features = ["ecdsa", "ecdh"] }
minicbor = { version = "*", features = ["alloc"] }
heapless = "0.8"
zeroize = { version = "1", features = ["alloc"] }
ml-kem = { version = "0.2", features = ["deterministic"] }

[dev-dependencies]
fips204 = "0.4"
