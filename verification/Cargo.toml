[package]
name = "subspacer"
version = "0.1.0"
edition = "2021"
publish = false

[dependencies]
sha2 = "=0.11.0"
k256 = "=0.14.0"
ecdsa = "=0.17.0"
spacedb = "=0.1.4"
serde = { version = "=1.0.229", features = ["derive"] }
serde_json = "=1.0.151"
serde_with = { version = "=3.24.0", features = ["hex", "base64"] }
clap = { version = "=4.6.7", features = ["derive"] }
atty = "=0.2.14"
hex = "=0.4.3"
