[package]
name = "rge_core"
version = "0.1.0"
edition = "2021"
publish = false

[dependencies]
blake3 = { version = "=1.8.7", default-features = false, features = ["std", "pure"] }
serde = { version = "=1.0.229", features = ["derive"] }
thiserror = "=2.0.21"
ron = "=0.8.1"
mint = "=0.5.9"
kira = { version = "=0.12.6", default-features = false }
glam = "=0.34.2"
csgrs = "*"
nalgebra = "*"
