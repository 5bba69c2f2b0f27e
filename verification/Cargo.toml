[package]
name = "schubert"
version = "0.4.0"
edition = "2021"
publish = false

[dependencies]
amari-enumerative = { version = "=0.23.0", features = ["tropical-schubert", "parallel"] }
amari-surreal = { version = "=0.23.0", features = ["experimental-epsilon"] }
ed25519-dalek = { version = "=2.2.0", features = ["rand_core"] }
rand = "=0.8.8"
base64 = "=0.22.1"
serde = { version = "=1.0.229", features = ["derive"] }
serde_json = "=1.0.154"
toml = "=0.8.23"
clap = { version = "=4.6.7", features = ["derive"] }
axum = "=0.8.9"
rayon = "=1.12.0"
num-bigint = "=0.4.8"
num-traits = "=0.2.19"
karpal-proof = "=0.6.1"
karpal-verify = "=0.6.1"
minuet = "=0.5.0"
wasm-bindgen = "=0.2.130"
js-sys = "=0.3.107"
