[package]
name = "craws"
version = "0.1.0"
edition = "2021"
publish = false

[dependencies]
blake3 = "1"
image = { version = "0.25", default-features = false, features = ["png", "jpeg", "webp"] }
jpeg-encoder = "0.6"
serde = { version = "1", features = ["derive"] }
serde_json = "1"
rayon = "1"
thiserror = "2"
anyhow = "1"
clap = { version = "4", features = ["derive"] }
ab_glyph = "0.2"
fontdb = "*"
rmcp = { version = "*", features = ["server", "macros", "transport-io"] }
schemars = "*"
tokio = { version = "1", features = ["macros", "rt-multi-thread", "io-std"] }
