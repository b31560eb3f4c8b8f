[package]
name = "secret_tree"
version = "0.1.0"
edition = "2021"
publish = false

[dependencies]
openmls_traits = "=0.6.0"
openmls_rust_crypto = "=0.6.0"
tls_codec = "=0.5.0"
serde = { version = "=1.0.229", features = ["derive"] }
serde_json = "=1.0.154"
