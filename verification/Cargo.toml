[package]
name = "cosmogony"
version = "0.1.0"
edition = "2021"
publish = false

[dependencies]
failure = "=0.1.8"
geo = "=0.26.0"
log = "=0.4.34"
osm_boundaries_utils = "=0.12.0"
osmpbfreader = "=0.16.1"
serde = { version = "=1.0.229", features = ["derive"] }
serde_yaml = "=0.9.34"
