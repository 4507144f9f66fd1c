[package]
name = "pscred"
version = "0.1.0"
edition = "2021"
publish = false

[dependencies]
blsful = { version = "2.5", default-features = false, features = ["rust"] }
elliptic-curve = { version = "0.13", features = ["hash2curve"] }
log = "0.4"
merlin = "3"
rand_core = { version = "0.6", features = ["getrandom"] }
serde = { version = "1", features = ["derive"] }
serde_json = "1"
sha2 = "0.10"
