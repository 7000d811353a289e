[package]
name = "payload_index"
version = "0.1.0"
edition = "2021"
publish = false

[dependencies]
serde_json = "1"
atomic_refcell = "*"
log = "0.4"
