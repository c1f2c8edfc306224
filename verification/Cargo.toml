[package]
name = "flmodules"
version = "0.1.0"
edition = "2021"
publish = false

[dependencies]
sha2 = "=0.10.9"
serde = { version = "=1.0.229", features = ["derive"] }
serde_yaml = "=0.9.34"
thiserror = "=2.0.21"
rand = "=0.8.8"
async-trait = "=0.1.92"
num-bigint = "0.4"
