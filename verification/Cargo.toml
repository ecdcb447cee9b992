[package]
name = "backbone_td"
version = "0.1.0"
edition = "2021"
publish = false

[dependencies]
ahash = "0.8"
chrono = "0.4"
csv = "1"
fern = "0.6"
log = "0.4"
pcap = "2"
pnet = "0.35"
priority-queue = "2"
pyo3 = "0.22"
rand = { version = "0.8", features = ["small_rng"] }
regex = "1"
