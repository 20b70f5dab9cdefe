[package]
name = "lob"
version = "0.1.0"
edition = "2021"
publish = false

[dependencies]
anyhow = "1"
async-trait = "0.1"
bincode = "1.3"
core_affinity = "0.8"
dashmap = "5"
futures-util = "0.3"
hdrhistogram = { version = "7", default-features = false }
num_cpus = "1"
plotters = { version = "0.3", default-features = false, features = ["svg_backend", "line_series"] }
quanta = "0.12"
rand = "0.8"
redis = { version = "0.24", features = ["tokio-comp"] }
reqwest = { version = "0.12", default-features = false, features = ["json", "rustls-tls"] }
serde = { version = "1", features = ["derive"] }
serde_json = "1"
simd-json = "0.13"
tokio = { version = "1", features = ["full"] }
tokio-rustls = { version = "0.26", default-features = false, features = ["ring", "tls12", "logging"] }
tokio-tungstenite = { version = "0.24", features = ["rustls-tls-webpki-roots"] }
url = "2"
webpki-roots = "0.26"
