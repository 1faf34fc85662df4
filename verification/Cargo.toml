[package]
name = "post"
version = "0.1.0"
edition = "2021"
publish = false

[dependencies]
aes = "=0.8.4"
cipher = { version = "=0.4.4", features = ["block-padding"] }
blake3 = { version = "=1.8.7", default-features = false, features = ["pure"] }
primitive-types = "=0.12.2"
rayon = "=1.12.0"
randomx-rs = "=1.6.0"
eyre = "=0.6.14"
log = "=0.4.34"
serde = { version = "=1.0.229", features = ["derive"] }
serde_json = "=1.0.154"

[dev-dependencies]
rand = "=0.8.8"
