[package]
name = "tlv"
version = "0.1.0"
edition = "2021"
publish = false

[dependencies]
aligned = "0.4"
serde = { version = "1", features = ["derive"] }
serde_json = "1"
serde_json5 = "*"
typetag = "0.2"
zerocopy = "0.8"
