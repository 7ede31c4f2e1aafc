[package]
name = "streamlette"
version = "0.1.0"
edition = "2021"
publish = false

[dependencies]
anyhow = "=1.0.104"
async-io = "=2.6.0"
async-trait = "=0.1.92"
bytes = { version = "=1.12.1", features = ["serde"] }
dashmap = "=6.2.1"
env_logger = "=0.11.11"
fastrand = "=2.5.0"
futures-lite = "=2.6.1"
hex = "=0.4.3"
itertools = "=0.15.0"
log = "=0.4.34"
serde = { version = "=1.0.229", features = ["derive"] }
smol = "=2.0.2"
stdcode = "=0.1.14"
tmelcrypt = "=0.2.7"
