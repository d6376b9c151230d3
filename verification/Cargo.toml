[package]
name = "rayhunter"
version = "0.1.0"
edition = "2021"
publish = false

[dependencies]
bitvec = "1"
chrono = { version = "0.4", default-features = false, features = ["clock"] }
p256 = { version = "0.13", features = ["ecdsa", "pkcs8", "pem"] }
rand_core = { version = "0.6", features = ["getrandom"] }
time = "0.3"
rcgen = { version = "0.13", default-features = false, features = ["pem"] }
axum-server = { version = "0.7", features = ["tls-rustls-no-provider"] }
log = "0.4"
